//! Decoding the lines of a streamed response into events.

use crate::error::{ClientError, ErrorCode, ErrorView};
use crate::json::{Json, JsonView};
use crate::llm::types::{
    ChatResponseStream, ChoiceStream, ChoiceStreamView, ChunkView, DecoderEvent,
    DecoderEventPayload, EventInfo, EventView, PayloadView, StatusView, ToolCall, ToolCallView,
    TurnStatus, Usage,
};
use crate::model::{view_opt, views};
use crate::text::{
    after_prefix, is_blank, is_white, lemma_trimmed_of_padded, occurs_at, same_text, strip_prefix,
    trim_text, trimmed,
};
use std::collections::HashMap;
use vstd::prelude::*;

verus! {

broadcast use vstd::std_specs::hash::group_hash_axioms;

/// Decodes the stream of one turn after another.
#[derive(Debug)]
pub struct StreamDecoder {
    seq: u64,
    turn_id: u64,
    started: Vec<(usize, usize)>,
    content_snapshots: HashMap<usize, String>,
    reasoning_snapshots: HashMap<usize, String>,
    pending_usage: Option<Usage>,
}

/// The state of a decoder: the number of the last event, the turn, the tool calls that were begun,
/// the last snapshots, and the counts that no event has told yet.
#[verifier::ext_equal]
pub struct DecoderView {
    pub seq: u64,
    pub turn_id: u64,
    pub started: Set<(usize, usize)>,
    pub content: Map<usize, Seq<char>>,
    pub reasoning: Map<usize, Seq<char>>,
    pub pending: Option<Usage>,
}

/// Texts by number.
pub open spec fn texts(m: Map<usize, String>) -> Map<usize, Seq<char>> {
    m.map_values(|s: String| s@)
}

impl View for StreamDecoder {
    type V = DecoderView;

    closed spec fn view(&self) -> DecoderView {
        DecoderView {
            seq: self.seq,
            turn_id: self.turn_id,
            started: self.started@.to_set(),
            content: texts(self.content_snapshots@),
            reasoning: texts(self.reasoning_snapshots@),
            pending: self.pending_usage,
        }
    }
}

/// An event, or why there is none.
pub open spec fn outcome(r: Result<DecoderEvent, ClientError>) -> Result<EventView, ErrorView> {
    match r {
        Ok(e) => Ok(e@),
        Err(e) => Err(e@),
    }
}

/// Events, or why there are none.
pub open spec fn outcomes(s: Seq<Result<DecoderEvent, ClientError>>) -> Seq<
    Result<EventView, ErrorView>,
> {
    Seq::new(s.len(), |i: int| outcome(s[i]))
}

/// A decoder with the events that it has given so far.
#[verifier::ext_equal]
pub struct Decoding {
    pub state: DecoderView,
    pub out: Seq<Result<EventView, ErrorView>>,
}

/// The number of the next event.
pub open spec fn next_seq(seq: u64) -> u64 {
    if seq == u64::MAX {
        0
    } else {
        (seq + 1) as u64
    }
}

/// What is new in a snapshot: what follows the last one, or all of it where it does not begin with
/// the last one.
pub open spec fn new_part(last: Map<usize, Seq<char>>, i: usize, snapshot: Seq<char>) -> Seq<char> {
    if last.dom().contains(i) {
        match after_prefix(snapshot, last[i]) {
            Some(rest) => rest,
            None => snapshot,
        }
    } else {
        snapshot
    }
}

/// The text of a line: without white space and without the field name.
pub open spec fn line_payload(line: Seq<char>) -> Seq<char> {
    match after_prefix(trimmed(line), "data:"@) {
        Some(rest) => trimmed(rest),
        None => trimmed(line),
    }
}

/// The text of a line: without white space and without the field name.
pub fn stream_payload(line: &str) -> (r: String)
    ensures
        r@ == line_payload(line@),
{
    let s: String = trim_text(line);
    match strip_prefix(s.as_str(), "data:") {
        Some(rest) => trim_text(rest.as_str()),
        None => s,
    }
}

impl DecoderView {
    /// The state at the beginning of a turn.
    pub open spec fn fresh(turn_id: u64) -> DecoderView {
        DecoderView {
            seq: 0,
            turn_id,
            started: Set::empty(),
            content: Map::empty(),
            reasoning: Map::empty(),
            pending: None,
        }
    }

    /// The state with a report on the counts taken in.
    pub open spec fn counting(self, update: Option<Usage>) -> DecoderView {
        DecoderView {
            pending: match (self.pending, update) {
                (Some(p), Some(u)) => Some(p.merged(u)),
                (None, Some(u)) => Some(u),
                (p, None) => p,
            },
            ..self
        }
    }
}

impl Decoding {
    /// With one more event.
    pub open spec fn emit(self, payload: PayloadView) -> Decoding {
        let seq = next_seq(self.state.seq);
        Decoding {
            state: DecoderView { seq, ..self.state },
            out: self.out.push(Ok(EventView { seq, turn_id: self.state.turn_id, payload })),
        }
    }

    /// With an event for a content that is not empty.
    pub open spec fn content(self, delta: Seq<char>) -> Decoding {
        if delta.len() > 0 {
            self.emit(PayloadView::AssistantContentDelta { delta })
        } else {
            self
        }
    }

    /// With an event for a thought that is not empty.
    pub open spec fn reasoning(self, delta: Seq<char>) -> Decoding {
        if delta.len() > 0 {
            self.emit(PayloadView::AssistantReasoningDelta { delta })
        } else {
            self
        }
    }

    /// With an event for what is new in a content snapshot.
    pub open spec fn content_snapshot(self, i: usize, snapshot: Seq<char>) -> Decoding {
        let delta = new_part(self.state.content, i, snapshot);
        Decoding {
            state: DecoderView {
                content: self.state.content.insert(i, snapshot),
                ..self.state
            },
            ..self
        }.content(delta)
    }

    /// With an event for what is new in a thought snapshot.
    pub open spec fn reasoning_snapshot(self, i: usize, snapshot: Seq<char>) -> Decoding {
        let delta = new_part(self.state.reasoning, i, snapshot);
        Decoding {
            state: DecoderView {
                reasoning: self.state.reasoning.insert(i, snapshot),
                ..self.state
            },
            ..self
        }.reasoning(delta)
    }

    /// With the events for a piece of a tool call: its beginning, where its name comes for the
    /// first time, and its arguments.
    pub open spec fn tool_call(self, i: usize, call: ToolCallView) -> Decoding {
        let key = (i, call.index);
        let begun = if call.name.len() > 0 && !self.state.started.contains(key) {
            Decoding {
                state: DecoderView { started: self.state.started.insert(key), ..self.state },
                ..self
            }.emit(PayloadView::ToolCallStart { index: call.index, tool_name: call.name })
        } else {
            self
        };
        if call.arguments.len() > 0 {
            begun.emit(
                PayloadView::ToolCallDelta {
                    index: call.index,
                    tool_name: if call.name.len() > 0 {
                        Some(call.name)
                    } else {
                        None
                    },
                    args: call.arguments,
                },
            )
        } else {
            begun
        }
    }

    /// With the events for pieces of tool calls.
    pub open spec fn tool_calls(self, i: usize, calls: Seq<ToolCallView>) -> Decoding
        decreases calls.len(),
    {
        if calls.len() == 0 {
            self
        } else {
            self.tool_calls(i, calls.drop_last()).tool_call(i, calls.last())
        }
    }

    /// With the event for the end of a turn, which tells the counts.
    pub open spec fn turn_end(self, finish_reason: Option<Seq<char>>) -> Decoding {
        let told = self.emit(
            PayloadView::TurnEnd {
                status: StatusView::Completed,
                finish_reason,
                usage: self.state.pending,
            },
        );
        Decoding { state: DecoderView { pending: None, ..told.state }, ..told }
    }

    /// With the event for the end of an answer.
    pub open spec fn finish(self, reason: Seq<char>) -> Decoding {
        if reason == "tool_calls"@ {
            self.emit(PayloadView::ToolCallsRequired)
        } else {
            self.turn_end(Some(reason))
        }
    }

    /// With the events for the contents of a piece of an answer.
    pub open spec fn choice_contents(self, i: usize, c: ChoiceStreamView) -> Decoding {
        let a = match c.delta.content {
            Some(s) => self.content(s),
            None => self,
        };
        match c.delta.content_snapshot {
            Some(s) => a.content_snapshot(i, s),
            None => a,
        }
    }

    /// With the events for the thoughts of a piece of an answer.
    pub open spec fn choice_reasoning(self, i: usize, c: ChoiceStreamView) -> Decoding {
        let a = match c.delta.reasoning_content {
            Some(s) => self.reasoning(s),
            None => self,
        };
        match c.delta.reasoning_content_snapshot {
            Some(s) => a.reasoning_snapshot(i, s),
            None => a,
        }
    }

    /// With the events for a piece of an answer: content, thoughts, tool calls and the end.
    pub open spec fn choice(self, i: usize, c: ChoiceStreamView) -> Decoding {
        let a = self.choice_contents(i, c).choice_reasoning(i, c);
        let b = match c.delta.tool_calls {
            Some(calls) => a.tool_calls(i, calls),
            None => a,
        };
        match c.finish_reason {
            Some(reason) => b.finish(reason),
            None => b,
        }
    }

    /// With the events for pieces of answers.
    pub open spec fn choices(self, cs: Seq<ChoiceStreamView>) -> Decoding
        decreases cs.len(),
    {
        if cs.len() == 0 {
            self
        } else {
            self.choices(cs.drop_last()).choice((cs.len() - 1) as usize, cs.last())
        }
    }
}

/// The error for a line that could not be read.
pub open spec fn unreadable(source: Seq<char>, line: Seq<char>) -> ErrorView {
    ErrorView::bare(ErrorCode::LlmStreamProtocolError, "流式响应 JSON 解析失败"@).with(
        "source"@,
        JsonView::Text(source),
    ).with("line"@, JsonView::Text(line))
}

/// What a line was read as.
pub open spec fn reading(r: Result<ChatResponseStream, String>) -> Result<ChunkView, Seq<char>> {
    match r {
        Ok(chunk) => Ok(chunk@),
        Err(e) => Err(e@),
    }
}

/// What a decoder makes of a line.
pub open spec fn decoded(
    state: DecoderView,
    line: Seq<char>,
    parsed: Result<ChunkView, Seq<char>>,
) -> Decoding {
    let s = line_payload(line);
    let start = Decoding { state, out: Seq::empty() };
    if s.len() == 0 {
        start
    } else if s == "[DONE]"@ {
        start.turn_end(None)
    } else {
        match parsed {
            Err(e) => Decoding { state, out: seq![Err(unreadable(e, s))] },
            Ok(chunk) => Decoding { state: state.counting(chunk.usage), out: Seq::empty() }.choices(
                chunk.choices,
            ),
        }
    }
}

/// `std::time::SystemTime::now`: the clock's time, of which nothing is claimed.
#[verifier::external_body]
fn now() -> (r: std::time::SystemTime) {
    std::time::SystemTime::now()
}

/// Takes in a snapshot, and gives what is new in it.
pub fn snapshot_delta(
    snapshots: &mut HashMap<usize, String>,
    choice_index: usize,
    snapshot: String,
) -> (r: String)
    ensures
        r@ == new_part(texts(old(snapshots)@), choice_index, snapshot@),
        texts(final(snapshots)@) == texts(old(snapshots)@).insert(choice_index, snapshot@),
{
    let delta: String = match snapshots.get(&choice_index) {
        Some(previous) => match strip_prefix(snapshot.as_str(), previous.as_str()) {
            Some(rest) => rest,
            None => snapshot.clone(),
        },
        None => snapshot.clone(),
    };
    let ghost text = snapshot@;
    snapshots.insert(choice_index, snapshot);
    assert(texts(snapshots@) =~= texts(old(snapshots)@).insert(choice_index, text));
    delta
}

impl Default for StreamDecoder {
    fn default() -> (r: Self)
        ensures
            r@ == DecoderView::fresh(0),
    {
        let r: StreamDecoder = StreamDecoder {
            seq: 0,
            turn_id: 0,
            started: Vec::new(),
            content_snapshots: HashMap::new(),
            reasoning_snapshots: HashMap::new(),
            pending_usage: None,
        };
        assert(r@ =~= DecoderView::fresh(0));
        r
    }
}

impl StreamDecoder {
    /// Begins a turn: nothing of the one before counts any more.
    pub fn begin_turn(&mut self, turn_id: u64)
        ensures
            final(self)@ == DecoderView::fresh(turn_id),
    {
        self.turn_id = turn_id;
        self.seq = 0;
        self.started.clear();
        self.content_snapshots.clear();
        self.reasoning_snapshots.clear();
        self.pending_usage = None;
        assert(self@ =~= DecoderView::fresh(turn_id));
    }

    /// Takes the counts that no event has told yet.
    pub fn take_pending_usage(&mut self) -> (r: Option<Usage>)
        ensures
            r == old(self)@.pending,
            final(self)@ == (DecoderView { pending: None, ..old(self)@ }),
    {
        let r: Option<Usage> = self.pending_usage;
        self.pending_usage = None;
        r
    }

    fn next_info(&mut self) -> (r: EventInfo)
        ensures
            r.seq == next_seq(old(self)@.seq),
            r.turn_id == old(self)@.turn_id,
            final(self)@ == (DecoderView { seq: next_seq(old(self)@.seq), ..old(self)@ }),
    {
        self.seq = self.seq.wrapping_add(1);
        EventInfo { time_stamp: now(), seq: self.seq, turn_id: self.turn_id }
    }

    fn emit(
        &mut self,
        out: &mut Vec<Result<DecoderEvent, ClientError>>,
        payload: DecoderEventPayload,
    )
        ensures
            (Decoding { state: final(self)@, out: outcomes(final(out)@) }) == (Decoding {
                state: old(self)@,
                out: outcomes(old(out)@),
            }).emit(payload@),
    {
        let event_info: EventInfo = self.next_info();
        let event: DecoderEvent = DecoderEvent { event_info, payload };
        let ghost v = event@;
        out.push(Ok(event));
        assert(outcomes(out@) =~= outcomes(old(out)@).push(Ok(v)));
    }

    fn emit_content(&mut self, out: &mut Vec<Result<DecoderEvent, ClientError>>, delta: String)
        ensures
            (Decoding { state: final(self)@, out: outcomes(final(out)@) }) == (Decoding {
                state: old(self)@,
                out: outcomes(old(out)@),
            }).content(delta@),
    {
        if !delta.as_str().is_empty() {
            self.emit(out, DecoderEventPayload::AssistantContentDelta { delta });
        }
    }

    fn emit_reasoning(&mut self, out: &mut Vec<Result<DecoderEvent, ClientError>>, delta: String)
        ensures
            (Decoding { state: final(self)@, out: outcomes(final(out)@) }) == (Decoding {
                state: old(self)@,
                out: outcomes(old(out)@),
            }).reasoning(delta@),
    {
        if !delta.as_str().is_empty() {
            self.emit(out, DecoderEventPayload::AssistantReasoningDelta { delta });
        }
    }

    fn emit_turn_end(
        &mut self,
        out: &mut Vec<Result<DecoderEvent, ClientError>>,
        finish_reason: Option<String>,
    )
        ensures
            (Decoding { state: final(self)@, out: outcomes(final(out)@) }) == (Decoding {
                state: old(self)@,
                out: outcomes(old(out)@),
            }).turn_end(view_opt(finish_reason)),
    {
        let usage: Option<Usage> = self.pending_usage;
        self.emit(
            out,
            DecoderEventPayload::TurnEnd { status: TurnStatus::Completed, finish_reason, usage },
        );
        self.pending_usage = None;
    }

    fn has_started(&self, key: (usize, usize)) -> (r: bool)
        ensures
            r == self@.started.contains(key),
    {
        let mut i: usize = 0;
        while i < self.started.len()
            invariant
                i <= self.started@.len(),
                forall|j: int| 0 <= j < i ==> self.started@[j] != key,
            decreases self.started@.len() - i,
        {
            let k: (usize, usize) = self.started[i];
            if k.0 == key.0 && k.1 == key.1 {
                assert(self.started@[i as int] == key);
                return true;
            }
            i = i + 1;
        }
        false
    }

    fn emit_tool_call_events(
        &mut self,
        choice_i: usize,
        tc: &ToolCall,
        out: &mut Vec<Result<DecoderEvent, ClientError>>,
    )
        ensures
            (Decoding { state: final(self)@, out: outcomes(final(out)@) }) == (Decoding {
                state: old(self)@,
                out: outcomes(old(out)@),
            }).tool_call(choice_i, tc@),
    {
        let index: usize = tc.index;
        let named: bool = !tc.function.name.as_str().is_empty();
        if named && !self.has_started((choice_i, index)) {
            let ghost before = self.started@;
            self.started.push((choice_i, index));
            proof {
                let s = before.push((choice_i, index));
                assert(s.to_set() =~= before.to_set().insert((choice_i, index))) by {
                    assert(s[before.len() as int] == (choice_i, index));
                    assert forall|k: (usize, usize)| before.contains(k) implies s.contains(k) by {
                        let j = choose|j: int| 0 <= j < before.len() && before[j] == k;
                        assert(s[j] == k);
                    }
                }
            }
            self.emit(
                out,
                DecoderEventPayload::ToolCallStart { index, tool_name: tc.function.name.clone() },
            );
        }
        if !tc.function.arguments.as_str().is_empty() {
            let tool_name: Option<String> = if named {
                Some(tc.function.name.clone())
            } else {
                None
            };
            self.emit(
                out,
                DecoderEventPayload::ToolCallDelta {
                    index,
                    tool_name,
                    args: tc.function.arguments.clone(),
                },
            );
        }
    }

    fn decode_choice(
        &mut self,
        choice_i: usize,
        choice: &ChoiceStream,
        out: &mut Vec<Result<DecoderEvent, ClientError>>,
    )
        ensures
            (Decoding { state: final(self)@, out: outcomes(final(out)@) }) == (Decoding {
                state: old(self)@,
                out: outcomes(old(out)@),
            }).choice(choice_i, choice@),
    {
        let ghost start = Decoding { state: self@, out: outcomes(out@) };
        match &choice.delta.content {
            Some(delta) => {
                self.emit_content(out, delta.clone());
            },
            None => {},
        }
        match &choice.delta.content_snapshot {
            Some(snapshot) => {
                let delta: String = snapshot_delta(
                    &mut self.content_snapshots,
                    choice_i,
                    snapshot.clone(),
                );
                self.emit_content(out, delta);
            },
            None => {},
        }
        assert((Decoding { state: self@, out: outcomes(out@) }) == start.choice_contents(
            choice_i,
            choice@,
        ));
        match &choice.delta.reasoning_content {
            Some(delta) => {
                self.emit_reasoning(out, delta.clone());
            },
            None => {},
        }
        match &choice.delta.reasoning_content_snapshot {
            Some(snapshot) => {
                let delta: String = snapshot_delta(
                    &mut self.reasoning_snapshots,
                    choice_i,
                    snapshot.clone(),
                );
                self.emit_reasoning(out, delta);
            },
            None => {},
        }
        let ghost mid = Decoding { state: self@, out: outcomes(out@) };
        assert(mid == start.choice_contents(choice_i, choice@).choice_reasoning(choice_i, choice@));
        match &choice.delta.tool_calls {
            Some(calls) => {
                let ghost all = views(calls@);
                let mut k: usize = 0;
                assert(all.take(0) =~= Seq::<ToolCallView>::empty());
                while k < calls.len()
                    invariant
                        k <= calls@.len(),
                        all == views(calls@),
                        (Decoding { state: self@, out: outcomes(out@) }) == mid.tool_calls(
                            choice_i,
                            all.take(k as int),
                        ),
                    decreases calls@.len() - k,
                {
                    assert(all.take(k + 1).drop_last() =~= all.take(k as int));
                    assert(all.take(k + 1).last() == calls@[k as int]@);
                    self.emit_tool_call_events(choice_i, &calls[k], out);
                    k = k + 1;
                }
                assert(all.take(k as int) =~= all);
            },
            None => {},
        }
        match &choice.finish_reason {
            Some(reason) => {
                if same_text(reason.as_str(), "tool_calls") {
                    self.emit(out, DecoderEventPayload::ToolCallsRequired);
                } else {
                    self.emit_turn_end(out, Some(reason.clone()));
                }
            },
            None => {},
        }
    }

    /// Decodes a line. `parsed` is what the text of the line was read as; it counts only where the
    /// line has a text that is not the end mark.
    pub fn decode(&mut self, line: &str, parsed: Result<ChatResponseStream, String>) -> (r: Vec<
        Result<DecoderEvent, ClientError>,
    >)
        ensures
            (Decoding { state: final(self)@, out: outcomes(r@) }) == decoded(
                old(self)@,
                line@,
                reading(parsed),
            ),
    {
        let mut out: Vec<Result<DecoderEvent, ClientError>> = Vec::new();
        assert(outcomes(out@) =~= Seq::<Result<EventView, ErrorView>>::empty());
        let s: String = stream_payload(line);
        if s.as_str().is_empty() {
            return out;
        }
        if same_text(s.as_str(), "[DONE]") {
            self.emit_turn_end(&mut out, None);
            return out;
        }
        let resp: ChatResponseStream = match parsed {
            Ok(chunk) => chunk,
            Err(e) => {
                let error: ClientError = ClientError::new(
                    ErrorCode::LlmStreamProtocolError,
                    "流式响应 JSON 解析失败",
                ).with_kv("source", Json::text(e.as_str())).with_kv("line", Json::text(s.as_str()));
                let ghost v = error@;
                out.push(Err(error));
                assert(outcomes(out@) =~= seq![Err(v)]);
                return out;
            },
        };
        match resp.usage {
            Some(update) => {
                match self.pending_usage {
                    Some(current) => {
                        let mut merged: Usage = current;
                        merged.merge_request_update(update);
                        self.pending_usage = Some(merged);
                    },
                    None => {
                        self.pending_usage = Some(update);
                    },
                }
            },
            None => {},
        }
        let ghost start = Decoding { state: self@, out: outcomes(out@) };
        let ghost all = views(resp.choices@);
        assert(start.state =~= old(self)@.counting(resp.usage));
        let mut i: usize = 0;
        assert(all.take(0) =~= Seq::<ChoiceStreamView>::empty());
        while i < resp.choices.len()
            invariant
                i <= resp.choices@.len(),
                all == views(resp.choices@),
                (Decoding { state: self@, out: outcomes(out@) }) == start.choices(
                    all.take(i as int),
                ),
            decreases resp.choices@.len() - i,
        {
            assert(all.take(i + 1).drop_last() =~= all.take(i as int));
            assert(all.take(i + 1).last() == resp.choices@[i as int]@);
            self.decode_choice(i, &resp.choices[i], &mut out);
            i = i + 1;
        }
        assert(all.take(i as int) =~= all);
        out
    }
}

/// The text of a line is what it holds between white space, behind the name of the field where that
/// stands in front: the text itself is left as it is.
pub proof fn lemma_text_of_a_line(
    before: Seq<char>,
    between: Seq<char>,
    body: Seq<char>,
    behind: Seq<char>,
)
    requires
        is_blank(before),
        is_blank(between),
        is_blank(behind),
        body.len() > 0,
        !is_white(body[0]),
        !is_white(body.last()),
    ensures
        line_payload(before + ("data:"@ + between + body) + behind) == body,
        !occurs_at(body, "data:"@, 0) ==> line_payload(before + body + behind) == body,
{
    reveal_strlit("data:");
    let field = "data:"@;
    let whole = field + between + body;
    assert(whole[0] == 'd');
    assert(whole.last() == body.last());
    lemma_trimmed_of_padded(before, whole, behind);
    lemma_trimmed_of_padded(before, body, behind);
    let none = Seq::<char>::empty();
    lemma_trimmed_of_padded(between, body, none);
    assert(between + body + none =~= between + body);
    assert(whole.subrange(0, field.len() as int) =~= field);
    assert(whole.subrange(field.len() as int, whole.len() as int) =~= between + body);
}

} // verus!
