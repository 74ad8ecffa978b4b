//! What follows when the model called tools: another attempt at a tool that failed, the request
//! behind the results, and the results of calls that were never run. And going on with an answer
//! that is not finished.

use crate::json::{member, text, Json, JsonView};
use crate::llm::assembly::acceptable;
use crate::llm::provider::{LLMSession, LlmView};
use crate::llm::repair::{lemma_pauses, retry_delay, tool_retry_delay_ms};
use crate::llm::types::{
    ChatRequest, Message, MessageView, RequestView, SessionEvent, SessionEventView, ToolCall,
    ToolCallView, Usage,
};
use crate::model::{lemma_views_push, text_or_default, text_or_empty, view_opt, views};
use crate::orchestrator::context::AssembledTurn;
use crate::text::same_text;
use vstd::prelude::*;

verus! {

/// How often a tool is tried again.
pub const MAX_TOOL_RETRIES: u32 = 2;

/// Why a turn ended whose tools were called often enough.
pub const TOOL_ROUNDS_EXHAUSTED: &'static str = "tool_rounds_exhausted";

/// What the model is told when tools were called often enough.
pub const ROUNDS_NOTE: &'static str = "已达到工具调用上限，请根据现有结果直接给出最终回答";

/// What the model is told of a call that was not run.
pub const CANCELLED_RESULT: &'static str = "工具执行失败: 本轮已取消，该调用未执行";

/// Why a tool is not run that the turn does not enable.
pub const NOT_ENABLED: &'static str = "本轮未启用该工具";

/// What the model is told to go on with an answer.
pub const CONTINUATION_PROMPT: &'static str = "请从上一条回答中断处继续，不要重复已有内容";

/// What stands in front of thoughts that are handed back.
pub const EARLIER_THOUGHTS: &'static str = "\n\n[已有思考]\n";

/// Why a tool failed.
#[derive(Debug)]
pub enum ToolFailure {
    /// It may work a moment later.
    Transient { retry_after_ms: Option<u64> },
    /// It was not allowed to run.
    Denied { reason: String },
    /// It will not work any more.
    Fatal,
}

/// Why a tool failed, as the model has it.
#[verifier::ext_equal]
pub enum FailureView {
    Transient { retry_after_ms: Option<u64> },
    Denied { reason: Seq<char> },
    Fatal,
}

impl View for ToolFailure {
    type V = FailureView;

    open spec fn view(&self) -> FailureView {
        match *self {
            ToolFailure::Transient { retry_after_ms } => FailureView::Transient { retry_after_ms },
            ToolFailure::Denied { reason } => FailureView::Denied { reason: reason@ },
            ToolFailure::Fatal => FailureView::Fatal,
        }
    }
}

impl FailureView {
    /// Whether the tool is tried again after it was tried again `made` times.
    pub open spec fn retried(self, made: u32) -> bool {
        self is Transient && made < MAX_TOOL_RETRIES
    }

    /// What the model is told of the failure.
    pub open spec fn told(self) -> Seq<char> {
        match self {
            FailureView::Transient { .. } => "工具执行失败: 超时或暂时不可用"@,
            FailureView::Denied { reason } => "工具执行被拒绝: "@ + reason + "。不要重试该操作"@,
            FailureView::Fatal => "工具执行失败: 该工具已不可用，请根据现有信息继续"@,
        }
    }
}

/// What is to be done after a tool failed.
#[derive(Debug)]
pub enum ToolStep {
    /// The event is told, and the tool is tried again after a pause.
    Retry { event: SessionEvent, delay_ms: u64 },
    /// The output goes to the model; the tool is not offered any more where it is withdrawn.
    Record { output: String, withdrawn: bool },
}

/// What is to be done after a tool failed, as the model has it.
#[verifier::ext_equal]
pub enum ToolStepView {
    Retry { event: SessionEventView, delay_ms: u64 },
    Record { output: Seq<char>, withdrawn: bool },
}

impl View for ToolStep {
    type V = ToolStepView;

    open spec fn view(&self) -> ToolStepView {
        match *self {
            ToolStep::Retry { event, delay_ms } => ToolStepView::Retry { event: event@, delay_ms },
            ToolStep::Record { output, withdrawn } => ToolStepView::Record {
                output: output@,
                withdrawn,
            },
        }
    }
}

/// What is done after a call failed that was tried again `made` times: a failure that may pass is
/// tried again, twice at most; any other goes to the model at once.
pub open spec fn after_failure(
    index: usize,
    name: Seq<char>,
    failure: FailureView,
    made: u32,
) -> ToolStepView {
    match failure {
        FailureView::Transient { retry_after_ms } if made < MAX_TOOL_RETRIES => {
            let delay_ms = retry_delay(retry_after_ms, made as nat) as u64;
            ToolStepView::Retry {
                event: SessionEventView::ToolRetrying {
                    index,
                    name,
                    attempt: (made + 1) as usize,
                    max_retries: MAX_TOOL_RETRIES as usize,
                    delay_ms,
                },
                delay_ms,
            }
        },
        _ => ToolStepView::Record { output: failure.told(), withdrawn: failure is Fatal },
    }
}

/// What is to be done after a call failed.
pub fn after_tool_failure(index: usize, name: &str, failure: &ToolFailure, made: u32) -> (r:
    ToolStep)
    ensures
        r@ == after_failure(index, name@, failure@, made),
{
    match failure {
        ToolFailure::Transient { retry_after_ms } => {
            if made < MAX_TOOL_RETRIES {
                let delay_ms: u64 = tool_retry_delay_ms(*retry_after_ms, made);
                ToolStep::Retry {
                    event: SessionEvent::ToolRetrying {
                        index,
                        name: name.to_owned(),
                        attempt: (made + 1) as usize,
                        max_retries: MAX_TOOL_RETRIES as usize,
                        delay_ms,
                    },
                    delay_ms,
                }
            } else {
                ToolStep::Record {
                    output: "工具执行失败: 超时或暂时不可用".to_owned(),
                    withdrawn: false,
                }
            }
        },
        ToolFailure::Denied { reason } => {
            let mut output: String = "工具执行被拒绝: ".to_owned();
            output.append(reason.as_str());
            output.append("。不要重试该操作");
            ToolStep::Record { output, withdrawn: false }
        },
        ToolFailure::Fatal => ToolStep::Record {
            output: "工具执行失败: 该工具已不可用，请根据现有信息继续".to_owned(),
            withdrawn: true,
        },
    }
}

/// The name in the description of a tool.
pub open spec fn described_name(tool: JsonView) -> Option<Seq<char>> {
    match member(tool, "function"@) {
        Some(function) => text(member(function, "name"@)),
        None => None,
    }
}

/// Whether the description is that of a tool that was withdrawn.
pub open spec fn names_withdrawn(tool: JsonView, withdrawn: Seq<Seq<char>>) -> bool {
    described_name(tool) is Some && withdrawn.contains(described_name(tool)->0)
}

/// The descriptions of the tools that are left, in order.
pub open spec fn tools_left(tools: Seq<JsonView>, withdrawn: Seq<Seq<char>>) -> Seq<JsonView>
    decreases tools.len(),
{
    if tools.len() == 0 {
        tools
    } else if names_withdrawn(tools.last(), withdrawn) {
        tools_left(tools.drop_last(), withdrawn)
    } else {
        tools_left(tools.drop_last(), withdrawn).push(tools.last())
    }
}

fn is_withdrawn(tool: &Json, withdrawn: &Vec<String>) -> (r: bool)
    ensures
        r == names_withdrawn(tool@, views(withdrawn@)),
{
    let name: &str = match tool.get("function") {
        Some(function) => match function.get("name") {
            Some(name) => match name.as_str() {
                Some(name) => name,
                None => {
                    return false;
                },
            },
            None => {
                return false;
            },
        },
        None => {
            return false;
        },
    };
    let mut i: usize = 0;
    while i < withdrawn.len()
        invariant
            i <= withdrawn@.len(),
            described_name(tool@) == Some(name@),
            forall|j: int| 0 <= j < i ==> #[trigger] views(withdrawn@)[j] != name@,
        decreases withdrawn@.len() - i,
    {
        if same_text(withdrawn[i].as_str(), name) {
            assert(views(withdrawn@)[i as int] == name@);
            return true;
        }
        i = i + 1;
    }
    false
}

/// A request behind the results of tools: tools that were withdrawn are not offered, and where
/// tools were called often enough none may be called and the model is told so.
pub open spec fn followed(r: RequestView, withdrawn: Seq<Seq<char>>, exhausted: bool) -> RequestView {
    let left = RequestView {
        tools: match r.tools {
            Some(tools) => Some(tools_left(tools, withdrawn)),
            None => None,
        },
        ..r
    };
    if exhausted {
        RequestView {
            messages: r.messages.push(MessageView::plain("system"@, ROUNDS_NOTE@)),
            tool_choice: Some("none"@),
            ..left
        }
    } else {
        left
    }
}

/// What the model is told to go on with an answer: thoughts are handed back where they are all
/// there is, since an answer without content is not sent.
pub open spec fn continuation_text(m: MessageView) -> Seq<char> {
    match m.reasoning_content {
        Some(thoughts) if text_or_empty(m.content).len() == 0 => CONTINUATION_PROMPT@
            + EARLIER_THOUGHTS@ + thoughts,
        _ => CONTINUATION_PROMPT@,
    }
}

/// The result of a call that was not run.
pub open spec fn not_run(call: ToolCallView) -> MessageView {
    MessageView {
        tool_call_id: Some(text_or_empty(call.id)),
        ..MessageView::plain("tool"@, CANCELLED_RESULT@)
    }
}

/// The session with results for calls that were not run, as long as there are numbers for them.
pub open spec fn closing(v: LlmView, calls: Seq<ToolCallView>, timestamp: Seq<char>) -> LlmView
    decreases calls.len(),
{
    if calls.len() == 0 {
        v
    } else {
        let earlier = closing(v, calls.drop_last(), timestamp);
        if earlier.handle.tree.next_id == u64::MAX {
            earlier
        } else {
            earlier.saying(not_run(calls.last()), timestamp)
        }
    }
}

/// What follows an answer.
#[derive(Debug)]
pub enum AfterAnswer {
    /// The turn is over, for the reason given.
    End { finish_reason: Option<String> },
    /// No tool is run; one more request is sent, which may call none.
    LastRequest,
    /// The tools are run, and another request is sent behind their results.
    RunTools,
}

/// What follows an answer, as the model has it.
#[verifier::ext_equal]
pub enum AfterAnswerView {
    End { finish_reason: Option<Seq<char>> },
    LastRequest,
    RunTools,
}

impl View for AfterAnswer {
    type V = AfterAnswerView;

    open spec fn view(&self) -> AfterAnswerView {
        match *self {
            AfterAnswer::End { finish_reason } => AfterAnswerView::End {
                finish_reason: view_opt(finish_reason),
            },
            AfterAnswer::LastRequest => AfterAnswerView::LastRequest,
            AfterAnswer::RunTools => AfterAnswerView::RunTools,
        }
    }
}

/// Whether an answer asks for tools.
pub open spec fn asks_for_tools(finish_reason: Option<Seq<char>>, calls: Seq<ToolCallView>) -> bool {
    finish_reason == Some("tool_calls"@) && calls.len() > 0
}

/// What follows an answer after tools were run `rounds` times, with `limit` times allowed: the turn
/// is over where no tools are asked for, where the user cancelled, and behind the last request.
pub open spec fn what_follows(
    finish_reason: Option<Seq<char>>,
    calls: Seq<ToolCallView>,
    cancelled: bool,
    last: bool,
    rounds: nat,
    limit: nat,
) -> AfterAnswerView {
    if last {
        AfterAnswerView::End { finish_reason: Some(TOOL_ROUNDS_EXHAUSTED@) }
    } else if cancelled || !asks_for_tools(finish_reason, calls) {
        AfterAnswerView::End { finish_reason }
    } else if rounds >= limit {
        AfterAnswerView::LastRequest
    } else {
        AfterAnswerView::RunTools
    }
}

/// The counts of a turn with those of one more request; a request that tells none adds nothing.
pub open spec fn counted(total: Option<Usage>, usage: Option<Usage>) -> Option<Usage> {
    match (total, usage) {
        (Some(t), Some(u)) => Some(t.accumulated(u)),
        (Some(t), None) => Some(t),
        (None, u) => u,
    }
}

/// Adds the counts of one more request to those of a turn.
pub fn count_request(total: Option<Usage>, usage: Option<Usage>) -> (r: Option<Usage>)
    ensures
        r == counted(total, usage),
{
    match (total, usage) {
        (Some(t), Some(u)) => {
            let mut sum: Usage = t;
            sum.accumulate_request(&u);
            Some(sum)
        },
        (Some(t), None) => Some(t),
        (None, u) => u,
    }
}

/// Whether a tool may be run in a turn: where the turn says nothing of tools every tool may, else
/// those that it enables.
pub fn may_run(turn: &AssembledTurn, name: &str) -> (r: bool)
    ensures
        r == (turn@.tool_schemas is None || turn@.enabled_tools.contains(name@)),
{
    if turn.tool_schemas.is_none() {
        return true;
    }
    let ghost names = views(turn.enabled_tools@);
    let mut i: usize = 0;
    while i < turn.enabled_tools.len()
        invariant
            i <= turn.enabled_tools@.len(),
            names == views(turn.enabled_tools@),
            forall|j: int| 0 <= j < i ==> #[trigger] names[j] != name@,
        decreases turn.enabled_tools@.len() - i,
    {
        if same_text(turn.enabled_tools[i].as_str(), name) {
            assert(names[i as int] == name@);
            return true;
        }
        i = i + 1;
    }
    false
}

impl LLMSession {
    /// What follows an answer: the end of the turn, a last request, or the tools.
    pub fn after_answer(
        &self,
        finish_reason: &Option<String>,
        calls: &Vec<ToolCall>,
        cancelled: bool,
        last: bool,
        rounds: usize,
    ) -> (r: AfterAnswer)
        ensures
            r@ == what_follows(
                view_opt(*finish_reason),
                views(calls@),
                cancelled,
                last,
                rounds as nat,
                self@.config.max_tool_rounds as nat,
            ),
    {
        if last {
            return AfterAnswer::End { finish_reason: Some(TOOL_ROUNDS_EXHAUSTED.to_owned()) };
        }
        let asks: bool = match finish_reason {
            Some(reason) => same_text(reason.as_str(), "tool_calls") && calls.len() > 0,
            None => false,
        };
        if cancelled || !asks {
            return AfterAnswer::End { finish_reason: finish_reason.clone() };
        }
        if self.tool_rounds_exhausted(rounds) {
            AfterAnswer::LastRequest
        } else {
            AfterAnswer::RunTools
        }
    }

    /// Whether tools were called often enough, after they were run `rounds` times.
    pub fn tool_rounds_exhausted(&self, rounds: usize) -> (r: bool)
        ensures
            r == (rounds >= self@.config.max_tool_rounds),
    {
        rounds >= self.config.max_tool_rounds
    }

    /// The request behind the results of tools.
    pub fn followup_request(&self, request: ChatRequest, withdrawn: &Vec<String>, rounds: usize) -> (r:
        ChatRequest)
        ensures
            r@ == followed(
                request@,
                views(withdrawn@),
                rounds >= self@.config.max_tool_rounds,
            ),
    {
        let mut out: ChatRequest = request;
        let ghost start = out@;
        let ghost w = views(withdrawn@);
        let left: Option<Vec<Json>> = match &out.tools {
            Some(tools) => {
                let mut kept: Vec<Json> = Vec::new();
                let ghost all = views(tools@);
                let mut i: usize = 0;
                assert(views(kept@) =~= tools_left(all.take(0), w));
                while i < tools.len()
                    invariant
                        i <= tools@.len(),
                        all == views(tools@),
                        w == views(withdrawn@),
                        views(kept@) == tools_left(all.take(i as int), w),
                    decreases tools@.len() - i,
                {
                    proof {
                        assert(all.take(i + 1).drop_last() =~= all.take(i as int));
                        assert(all.take(i + 1).last() == tools@[i as int]@);
                    }
                    if !is_withdrawn(&tools[i], withdrawn) {
                        let tool: Json = tools[i].clone();
                        proof {
                            lemma_views_push(kept@, tool);
                        }
                        kept.push(tool);
                    }
                    i = i + 1;
                }
                assert(all.take(i as int) =~= all);
                Some(kept)
            },
            None => None,
        };
        out.tools = left;
        if self.tool_rounds_exhausted(rounds) {
            let note: Message = Message::system(ROUNDS_NOTE);
            proof {
                lemma_views_push(out.messages@, note);
            }
            out.messages.push(note);
            out.tool_choice = Some("none".to_owned());
        }
        assert(out@ =~= followed(start, w, rounds >= self@.config.max_tool_rounds));
        out
    }

    /// The request to go on with an answer. What the model is told is not part of the conversation.
    pub fn continuation_request(&self, node_id: u64) -> (r: Result<ChatRequest, String>)
        ensures
            match r {
                Ok(q) => self@.handle.continuation_error(node_id) is None && q@
                    == self@.request().with_messages(
                    acceptable(self@.request().messages, self@.strips_reasoning).push(
                        MessageView::plain(
                            "user"@,
                            continuation_text(self@.handle.node(node_id)->0.message),
                        ),
                    ),
                ),
                Err(e) => self@.handle.continuation_error(node_id) == Some(e@),
            },
    {
        match self.handle.continue_generation(node_id) {
            Ok(_) => {},
            Err(e) => {
                return Err(e);
            },
        }
        let mut prompt: String = CONTINUATION_PROMPT.to_owned();
        match self.handle.get_node(node_id) {
            Some(node) => {
                let content: String = text_or_default(&node.message.content);
                match &node.message.reasoning_content {
                    Some(thoughts) => if content.as_str().unicode_len() == 0 {
                        prompt.append(EARLIER_THOUGHTS);
                        prompt.append(thoughts.as_str());
                    },
                    None => {},
                }
            },
            None => {},
        }
        let mut out: ChatRequest = self.sanitize_request(self.snapshot());
        let message: Message = Message::user(prompt.as_str());
        proof {
            lemma_views_push(out.messages@, message);
        }
        out.messages.push(message);
        assert(out@ =~= self@.request().with_messages(out@.messages));
        Ok(out)
    }

    /// Records that calls were not run, so that each of them has a result.
    pub fn cancel_calls(&mut self, calls: &Vec<ToolCall>, timestamp: &str)
        requires
            old(self)@.handle.wf(),
        ensures
            final(self)@ == closing(old(self)@, views(calls@), timestamp@),
            final(self)@.handle.wf(),
    {
        let ghost start = self@;
        let ghost all = views(calls@);
        let mut i: usize = 0;
        assert(all.take(0) =~= Seq::<ToolCallView>::empty());
        while i < calls.len()
            invariant
                i <= calls@.len(),
                all == views(calls@),
                self@ == closing(start, all.take(i as int), timestamp@),
                self@.handle.wf(),
            decreases calls@.len() - i,
        {
            proof {
                assert(all.take(i + 1).drop_last() =~= all.take(i as int));
                assert(all.take(i + 1).last() == calls@[i as int]@);
            }
            let id: String = text_or_default(&calls[i].id);
            let _ = self.add_message(Message::tool(CANCELLED_RESULT, id.as_str()), timestamp);
            i = i + 1;
        }
        assert(all.take(i as int) =~= all);
    }
}

/// A failure that may pass is tried again exactly twice; one that was denied or is final never is.
/// Whatever failed in the end is told, and only what is final is withdrawn.
pub proof fn lemma_retries(index: usize, name: Seq<char>, failure: FailureView, made: u32)
    ensures
        after_failure(index, name, failure, made) is Retry <==> failure.retried(made),
        failure is Transient ==> failure.retried(0) && failure.retried(1) && !failure.retried(2),
        !(failure is Transient) ==> !failure.retried(made),
        !failure.retried(made) ==> after_failure(index, name, failure, made) == (
        ToolStepView::Record { output: failure.told(), withdrawn: failure is Fatal }),
{
}

/// Tools are run as often as the session allows and no more, never after the user cancelled; the
/// last request ends the turn whatever comes back, and only there is the turn told to have ended
/// for the number of its calls.
pub proof fn lemma_tools_run_within_limit(
    finish_reason: Option<Seq<char>>,
    calls: Seq<ToolCallView>,
    cancelled: bool,
    last: bool,
    rounds: nat,
    limit: nat,
)
    ensures
        ({
            let next = what_follows(finish_reason, calls, cancelled, last, rounds, limit);
            &&& next is RunTools <==> asks_for_tools(finish_reason, calls) && !cancelled && !last
                && rounds < limit
            &&& next is LastRequest <==> asks_for_tools(finish_reason, calls) && !cancelled
                && !last && rounds >= limit
            &&& last ==> next == (AfterAnswerView::End {
                finish_reason: Some(TOOL_ROUNDS_EXHAUSTED@),
            })
            &&& next is End && !last ==> next->finish_reason == finish_reason
        }),
{
}

/// A tool that was withdrawn is not offered behind that, and every other tool still is.
pub proof fn lemma_withdrawn_not_offered(tools: Seq<JsonView>, withdrawn: Seq<Seq<char>>)
    ensures
        forall|i: int| #![trigger tools_left(tools, withdrawn)[i]]
            0 <= i < tools_left(tools, withdrawn).len() ==> !names_withdrawn(
                tools_left(tools, withdrawn)[i],
                withdrawn,
            ) && tools.contains(tools_left(tools, withdrawn)[i]),
        forall|i: int| #![trigger tools[i]]
            0 <= i < tools.len() && !names_withdrawn(tools[i], withdrawn) ==> tools_left(
                tools,
                withdrawn,
            ).contains(tools[i]),
    decreases tools.len(),
{
    if tools.len() > 0 {
        let earlier = tools.drop_last();
        lemma_withdrawn_not_offered(earlier, withdrawn);
        let left = tools_left(tools, withdrawn);
        let before = tools_left(earlier, withdrawn);
        assert forall|i: int| #![trigger left[i]] 0 <= i < left.len() implies !names_withdrawn(
            left[i],
            withdrawn,
        ) && tools.contains(left[i]) by {
            if i < before.len() {
                assert(left[i] == before[i]);
                let j = choose|j: int| 0 <= j < earlier.len() && earlier[j] == before[i];
                assert(tools[j] == left[i]);
            } else {
                assert(left[i] == tools[tools.len() - 1]);
            }
        }
        assert forall|i: int| #![trigger tools[i]]
            0 <= i < tools.len() && !names_withdrawn(tools[i], withdrawn) implies left.contains(
            tools[i],
        ) by {
            if i < earlier.len() {
                assert(earlier[i] == tools[i]);
                let j = choose|j: int| 0 <= j < before.len() && before[j] == tools[i];
                assert(left[j] == tools[i]);
            } else {
                assert(left[left.len() - 1] == tools[i]);
            }
        }
    }
}

/// A request behind the results of tools keeps what was said, in order; where tools were called
/// often enough, none may be called and a note at the end says so.
pub proof fn lemma_last_request_calls_no_tools(
    r: RequestView,
    withdrawn: Seq<Seq<char>>,
    exhausted: bool,
)
    ensures
        followed(r, withdrawn, exhausted).messages.take(r.messages.len() as int) == r.messages,
        !exhausted ==> followed(r, withdrawn, exhausted).messages == r.messages && followed(
            r,
            withdrawn,
            exhausted,
        ).tool_choice == r.tool_choice,
        exhausted ==> followed(r, withdrawn, exhausted).tool_choice == Some("none"@) && followed(
            r,
            withdrawn,
            exhausted,
        ).messages.last() == MessageView::plain("system"@, ROUNDS_NOTE@),
{
    assert(followed(r, withdrawn, exhausted).messages.take(r.messages.len() as int)
        =~= r.messages);
}

/// Calls that were not run all get a result, behind what was said before and in their order, as
/// long as there are numbers for them.
pub proof fn lemma_every_call_gets_a_result(
    v: LlmView,
    calls: Seq<ToolCallView>,
    timestamp: Seq<char>,
)
    requires
        v.handle.tree.next_id + calls.len() <= u64::MAX,
    ensures
        ({
            let nodes = closing(v, calls, timestamp).handle.tree.nodes;
            let n = v.handle.tree.nodes.len();
            &&& nodes.len() == n + calls.len()
            &&& nodes.take(n as int) == v.handle.tree.nodes
            &&& forall|i: int| #![trigger nodes[n + i]]
                0 <= i < calls.len() ==> nodes[n + i].message == not_run(calls[i])
            &&& closing(v, calls, timestamp).handle.tree.next_id == v.handle.tree.next_id
                + calls.len()
        }),
    decreases calls.len(),
{
    let n = v.handle.tree.nodes.len() as int;
    if calls.len() > 0 {
        lemma_every_call_gets_a_result(v, calls.drop_last(), timestamp);
        let before = closing(v, calls.drop_last(), timestamp).handle.tree.nodes;
        let nodes = closing(v, calls, timestamp).handle.tree.nodes;
        assert(nodes.take(n) =~= before.take(n));
        assert forall|i: int| #![trigger nodes[n + i]] 0 <= i < calls.len() implies nodes[n
            + i].message == not_run(calls[i]) by {
            if i < calls.len() - 1 {
                assert(nodes[n + i] == before[n + i]);
                assert(calls.drop_last()[i] == calls[i]);
            }
        }
    } else {
        assert(v.handle.tree.nodes.take(n) =~= v.handle.tree.nodes);
    }
}

/// What went wrong with a tool is told as it was: a reason for denying it word for word, and that a
/// tool is gone only where it is. Another attempt is announced with its number and its pause, which
/// is the one that the tool asked for where it asked for one.
pub proof fn lemma_failure_is_told(
    index: usize,
    name: Seq<char>,
    reason: Seq<char>,
    asked: Option<u64>,
    made: u32,
)
    ensures
        after_failure(index, name, FailureView::Denied { reason }, made) == (ToolStepView::Record {
            output: "工具执行被拒绝: "@ + reason + "。不要重试该操作"@,
            withdrawn: false,
        }),
        after_failure(index, name, FailureView::Fatal, made) == (ToolStepView::Record {
            output: "工具执行失败: 该工具已不可用，请根据现有信息继续"@,
            withdrawn: true,
        }),
        made >= 2 ==> after_failure(
            index,
            name,
            FailureView::Transient { retry_after_ms: asked },
            made,
        ) == (ToolStepView::Record {
            output: "工具执行失败: 超时或暂时不可用"@,
            withdrawn: false,
        }),
        made < 2 ==> {
            let step = after_failure(
                index,
                name,
                FailureView::Transient { retry_after_ms: asked },
                made,
            );
            &&& step is Retry
            &&& step->event == (SessionEventView::ToolRetrying {
                index,
                name,
                attempt: (made + 1) as usize,
                max_retries: 2,
                delay_ms: step->delay_ms,
            })
            &&& asked is Some && asked->0 <= 5000 ==> step->delay_ms == asked->0
            &&& asked is Some && asked->0 > 5000 ==> step->delay_ms == 5000
            &&& asked is None && made == 0 ==> step->delay_ms == 400
            &&& asked is None && made == 1 ==> step->delay_ms == 800
        },
{
    lemma_pauses(
        match asked {
            Some(n) => n,
            None => 0,
        },
        made as nat,
    );
    lemma_pauses(0, 0);
}

/// The tools that are left are left in their order, list behind list; one is left out exactly where
/// its name was withdrawn.
pub proof fn lemma_tools_left_in_order(
    a: Seq<JsonView>,
    b: Seq<JsonView>,
    x: JsonView,
    withdrawn: Seq<Seq<char>>,
)
    ensures
        tools_left(a + b, withdrawn) == tools_left(a, withdrawn) + tools_left(b, withdrawn),
        names_withdrawn(x, withdrawn) ==> tools_left(seq![x], withdrawn)
            == Seq::<JsonView>::empty(),
        !names_withdrawn(x, withdrawn) ==> tools_left(seq![x], withdrawn) == seq![x],
        tools_left(b, Seq::empty()) == b,
    decreases b.len(),
{
    assert(seq![x].drop_last() =~= Seq::<JsonView>::empty());
    assert(seq![x].last() == x);
    assert(tools_left(seq![x].drop_last(), withdrawn) =~= Seq::<JsonView>::empty());
    assert(Seq::<JsonView>::empty().push(x) =~= seq![x]);
    if b.len() == 0 {
        assert(a + b =~= a);
        assert(tools_left(a, withdrawn) + tools_left(b, withdrawn) =~= tools_left(a, withdrawn));
    } else {
        lemma_tools_left_in_order(a, b.drop_last(), x, withdrawn);
        assert((a + b).drop_last() =~= a + b.drop_last());
        assert((a + b).last() == b.last());
        assert(tools_left(a + b, withdrawn) =~= tools_left(a, withdrawn) + tools_left(
            b,
            withdrawn,
        ));
        assert(b.drop_last().push(b.last()) =~= b);
    }
}

/// The name of a tool is the one that its description gives to its function.
pub proof fn lemma_name_in_a_description(
    tool: Map<Seq<char>, JsonView>,
    function: Map<Seq<char>, JsonView>,
    name: Seq<char>,
    withdrawn: Seq<Seq<char>>,
)
    requires
        tool.dom().contains("function"@),
        tool["function"@] == JsonView::Object(function),
        function.dom().contains("name"@),
        function["name"@] == JsonView::Text(name),
    ensures
        described_name(JsonView::Object(tool)) == Some(name),
        names_withdrawn(JsonView::Object(tool), withdrawn) <==> withdrawn.contains(name),
{
}

/// A request behind the results of tools is the request of the turn but for the tools that were
/// withdrawn and the note at the end.
pub proof fn lemma_followup_changes(
    r: RequestView,
    tools: Seq<JsonView>,
    withdrawn: Seq<Seq<char>>,
    exhausted: bool,
)
    ensures
        ({
            let f = followed(r, withdrawn, exhausted);
            &&& f == (RequestView {
                messages: f.messages,
                tools: f.tools,
                tool_choice: f.tool_choice,
                ..r
            })
            &&& r.tools is None ==> f.tools is None
            &&& r.tools == Some(tools) ==> f.tools == Some(tools_left(tools, withdrawn))
            &&& exhausted ==> f.messages == r.messages.push(
                MessageView::plain("system"@, "已达到工具调用上限，请根据现有结果直接给出最终回答"@),
            )
            &&& followed(r, Seq::empty(), false) == r
        }),
{
    if r.tools is Some {
        let t = r.tools->0;
        lemma_tools_left_in_order(t, t, t[0], withdrawn);
    }
    assert(followed(r, Seq::empty(), false) =~= r);
}

/// An answer that says something is gone on with by the order alone; where there are only thoughts
/// the order hands them back, word for word.
pub proof fn lemma_what_continues_an_answer(m: MessageView, thoughts: Seq<char>)
    ensures
        m.content is Some && m.content->0.len() > 0 ==> continuation_text(m)
            == CONTINUATION_PROMPT@,
        m.reasoning_content is None ==> continuation_text(m) == CONTINUATION_PROMPT@,
        (m.content is None || m.content->0.len() == 0) && m.reasoning_content == Some(thoughts)
            ==> continuation_text(m) == CONTINUATION_PROMPT@ + "\n\n[已有思考]\n"@ + thoughts,
{
}

/// A call that was not run has a result that is its own and says so.
pub proof fn lemma_result_of_a_call_not_run(call: ToolCallView)
    ensures
        not_run(call).role == "tool"@,
        not_run(call).content == Some("工具执行失败: 本轮已取消，该调用未执行"@),
        call.id is Some ==> not_run(call).tool_call_id == call.id,
        not_run(call).tool_calls is None,
{
}

/// The counts of a turn are those of all of its requests together; a request that tells none leaves
/// them as they are.
pub proof fn lemma_turn_counts_its_requests(t: Usage, u: Usage)
    ensures
        counted(None, Some(u)) == Some(u),
        counted(Some(t), None) == Some(t),
        counted(None, None) is None,
        counted(Some(t), Some(u)) is Some,
        i64::MIN <= t.prompt_tokens + u.prompt_tokens <= i64::MAX ==> counted(
            Some(t),
            Some(u),
        )->0.prompt_tokens == t.prompt_tokens + u.prompt_tokens,
        i64::MIN <= t.completion_tokens + u.completion_tokens <= i64::MAX ==> counted(
            Some(t),
            Some(u),
        )->0.completion_tokens == t.completion_tokens + u.completion_tokens,
        i64::MIN <= t.total_tokens + u.total_tokens <= i64::MAX ==> counted(
            Some(t),
            Some(u),
        )->0.total_tokens == t.total_tokens + u.total_tokens,
        t.request_count + u.request_count <= u32::MAX ==> counted(
            Some(t),
            Some(u),
        )->0.request_count == t.request_count + u.request_count,
{
}

/// Tools are asked for by an answer that ended for that and calls at least one.
pub proof fn lemma_when_tools_are_asked_for(
    finish_reason: Option<Seq<char>>,
    calls: Seq<ToolCallView>,
)
    ensures
        asks_for_tools(finish_reason, calls) <==> finish_reason is Some && finish_reason->0
            == "tool_calls"@ && calls.len() > 0,
{
}

} // verus!
