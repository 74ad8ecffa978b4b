//! What holds of streamed turns, line by line.

use crate::error::{ErrorCode, ErrorView};
use crate::json::{json_parsed, JsonView};
use crate::llm::sanitize::names_differ;
use crate::llm::session::Replying;
use crate::llm::stream_decoder::{decoded, line_payload, new_part, DecoderView, Decoding};
use crate::llm::stream_turn::{
    call_events, merged_usage, stops_after_end, turned, unfinished_call, StepView, StreamTurnView,
    Turning,
};
use crate::llm::tool_calls::{call_id, text_at, CollectedView};
use crate::llm::types::{
    lemma_merge_order, ChoiceStreamView, ChunkView, EventView, PayloadView, SessionEventView,
    StatusView, ToolCallView, Usage,
};
use crate::text::{after_prefix, all_digits, decimal, is_blank, lemma_decimal_value, occurs_at};
use vstd::prelude::*;

verus! {

/// The content that events tell.
pub open spec fn told_content(out: Seq<Result<EventView, ErrorView>>) -> Seq<char>
    decreases out.len(),
{
    if out.len() == 0 {
        Seq::empty()
    } else {
        match out.last() {
            Ok(EventView { payload: PayloadView::AssistantContentDelta { delta }, .. }) =>
                told_content(out.drop_last()) + delta,
            _ => told_content(out.drop_last()),
        }
    }
}

/// After snapshots of one answer, one after another.
pub open spec fn after_snapshots(d: Decoding, i: usize, snapshots: Seq<Seq<char>>) -> Decoding
    decreases snapshots.len(),
{
    if snapshots.len() == 0 {
        d
    } else {
        after_snapshots(d, i, snapshots.drop_last()).content_snapshot(i, snapshots.last())
    }
}

/// Whether each text begins with the one before it.
pub open spec fn growing(snapshots: Seq<Seq<char>>) -> bool {
    forall|k: int, j: int| #![trigger snapshots[k], snapshots[j]]
        0 <= k && j == k + 1 && j < snapshots.len() ==> occurs_at(snapshots[j], snapshots[k], 0)
}

/// Snapshots that grow are told piece by piece: the pieces add up to the last snapshot.
pub proof fn lemma_snapshots_add_up(d: Decoding, i: usize, snapshots: Seq<Seq<char>>)
    requires
        snapshots.len() > 0,
        growing(snapshots),
        !d.state.content.dom().contains(i),
    ensures
        told_content(after_snapshots(d, i, snapshots).out) == told_content(d.out)
            + snapshots.last(),
        after_snapshots(d, i, snapshots).state.content == d.state.content.insert(
            i,
            snapshots.last(),
        ),
    decreases snapshots.len(),
{
    let last = snapshots.last();
    let shorter = snapshots.drop_last();
    let e = after_snapshots(d, i, shorter);
    if shorter.len() > 0 {
        assert forall|k: int, j: int| #![trigger shorter[k], shorter[j]]
            0 <= k && j == k + 1 && j < shorter.len() implies occurs_at(shorter[j], shorter[k], 0) by {
            assert(shorter[k] == snapshots[k] && shorter[j] == snapshots[j]);
        }
        lemma_snapshots_add_up(d, i, shorter);
        let n = snapshots.len() - 1;
        assert(occurs_at(snapshots[n], snapshots[n - 1], 0));
        let previous = shorter.last();
        let rest = last.subrange(previous.len() as int, last.len() as int);
        assert(after_prefix(last, previous) == Some(rest));
        assert(previous =~= last.subrange(0, previous.len() as int));
        assert(last =~= previous + rest);
        let f = e.content_snapshot(i, last);
        if rest.len() > 0 {
            assert(f.out.drop_last() =~= e.out);
        } else {
            assert(last =~= previous);
        }
        assert(told_content(f.out) =~= told_content(d.out) + last);
        assert(f.state.content =~= d.state.content.insert(i, last));
    } else {
        let f = d.content_snapshot(i, last);
        assert(e == d);
        if last.len() > 0 {
            assert(f.out.drop_last() =~= d.out);
        } else {
            assert(last =~= Seq::<char>::empty());
        }
        assert(told_content(f.out) =~= told_content(d.out) + last);
    }
}

/// The number of an event that comes a given count of events after another.
pub open spec fn seq_after(seq: u64, n: nat) -> u64 {
    ((seq + n) % 0x1_0000_0000_0000_0000) as u64
}

/// Whether events since a state are numbered one after another and belong to its turn.
pub open spec fn in_sequence(from: DecoderView, d: Decoding) -> bool {
    &&& d.state.turn_id == from.turn_id
    &&& d.state.seq == seq_after(from.seq, d.out.len())
    &&& from.started.subset_of(d.state.started)
    &&& forall|k: int| #![trigger d.out[k]]
        0 <= k < d.out.len() ==> d.out[k] is Ok && d.out[k]->Ok_0.turn_id == from.turn_id
            && d.out[k]->Ok_0.seq == seq_after(from.seq, (k + 1) as nat)
}

proof fn lemma_emit(from: DecoderView, d: Decoding, p: PayloadView)
    requires
        in_sequence(from, d),
    ensures
        in_sequence(from, d.emit(p)),
{
    let e = d.emit(p);
    assert forall|k: int| #![trigger e.out[k]] 0 <= k < e.out.len() implies e.out[k] is Ok
        && e.out[k]->Ok_0.turn_id == from.turn_id && e.out[k]->Ok_0.seq == seq_after(
        from.seq,
        (k + 1) as nat,
    ) by {
        if k < d.out.len() {
            assert(e.out[k] == d.out[k]);
        }
    }
}

proof fn lemma_tool_calls_in_sequence(
    from: DecoderView,
    d: Decoding,
    i: usize,
    calls: Seq<ToolCallView>,
)
    requires
        in_sequence(from, d),
    ensures
        in_sequence(from, d.tool_calls(i, calls)),
    decreases calls.len(),
{
    if calls.len() > 0 {
        lemma_tool_calls_in_sequence(from, d, i, calls.drop_last());
        let e = d.tool_calls(i, calls.drop_last());
        lemma_tool_call_in_sequence(from, e, i, calls.last());
    }
}

proof fn lemma_tool_call_in_sequence(from: DecoderView, d: Decoding, i: usize, call: ToolCallView)
    requires
        in_sequence(from, d),
    ensures
        in_sequence(from, d.tool_call(i, call)),
{
    let key = (i, call.index);
    let start = PayloadView::ToolCallStart { index: call.index, tool_name: call.name };
    let piece = PayloadView::ToolCallDelta {
        index: call.index,
        tool_name: if call.name.len() > 0 {
            Some(call.name)
        } else {
            None
        },
        args: call.arguments,
    };
    if call.name.len() > 0 && !d.state.started.contains(key) {
        let e = Decoding {
            state: DecoderView { started: d.state.started.insert(key), ..d.state },
            ..d
        };
        assert(in_sequence(from, e));
        lemma_emit(from, e, start);
        lemma_emit(from, e.emit(start), piece);
    } else {
        lemma_emit(from, d, piece);
    }
}

proof fn lemma_choice_in_sequence(from: DecoderView, d: Decoding, i: usize, c: ChoiceStreamView)
    requires
        in_sequence(from, d),
    ensures
        in_sequence(from, d.choice(i, c)),
{
    let a = match c.delta.content {
        Some(s) => d.content(s),
        None => d,
    };
    if c.delta.content is Some {
        lemma_emit(
            from,
            d,
            PayloadView::AssistantContentDelta { delta: c.delta.content->0 },
        );
    }
    let b = d.choice_contents(i, c);
    if c.delta.content_snapshot is Some {
        let s = c.delta.content_snapshot->0;
        let delta = new_part(a.state.content, i, s);
        let e = Decoding {
            state: DecoderView { content: a.state.content.insert(i, s), ..a.state },
            ..a
        };
        assert(in_sequence(from, e));
        lemma_emit(from, e, PayloadView::AssistantContentDelta { delta });
    }
    assert(in_sequence(from, b));
    let a2 = match c.delta.reasoning_content {
        Some(s) => b.reasoning(s),
        None => b,
    };
    if c.delta.reasoning_content is Some {
        lemma_emit(
            from,
            b,
            PayloadView::AssistantReasoningDelta { delta: c.delta.reasoning_content->0 },
        );
    }
    let b2 = b.choice_reasoning(i, c);
    if c.delta.reasoning_content_snapshot is Some {
        let s = c.delta.reasoning_content_snapshot->0;
        let delta = new_part(a2.state.reasoning, i, s);
        let e = Decoding {
            state: DecoderView { reasoning: a2.state.reasoning.insert(i, s), ..a2.state },
            ..a2
        };
        assert(in_sequence(from, e));
        lemma_emit(from, e, PayloadView::AssistantReasoningDelta { delta });
    }
    assert(in_sequence(from, b2));
    let g = match c.delta.tool_calls {
        Some(calls) => b2.tool_calls(i, calls),
        None => b2,
    };
    if c.delta.tool_calls is Some {
        lemma_tool_calls_in_sequence(from, b2, i, c.delta.tool_calls->0);
    }
    assert(in_sequence(from, g));
    if c.finish_reason is Some {
        lemma_emit(from, g, PayloadView::ToolCallsRequired);
        lemma_turn_end_in_sequence(from, g, c.finish_reason);
    }
}

proof fn lemma_turn_end_in_sequence(from: DecoderView, d: Decoding, reason: Option<Seq<char>>)
    requires
        in_sequence(from, d),
    ensures
        in_sequence(from, d.turn_end(reason)),
{
    lemma_emit(
        from,
        d,
        PayloadView::TurnEnd {
            status: StatusView::Completed,
            finish_reason: reason,
            usage: d.state.pending,
        },
    );
}

proof fn lemma_choices_in_sequence(from: DecoderView, d: Decoding, cs: Seq<ChoiceStreamView>)
    requires
        in_sequence(from, d),
    ensures
        in_sequence(from, d.choices(cs)),
    decreases cs.len(),
{
    if cs.len() > 0 {
        lemma_choices_in_sequence(from, d, cs.drop_last());
        lemma_choice_in_sequence(
            from,
            d.choices(cs.drop_last()),
            (cs.len() - 1) as usize,
            cs.last(),
        );
    }
}

/// The events of a turn are numbered one after another, across lines, and all belong to the turn;
/// a line that cannot be read gives an error and uses no number. Calls that were begun stay begun.
pub proof fn lemma_events_in_sequence(
    state: DecoderView,
    line: Seq<char>,
    parsed: Result<ChunkView, Seq<char>>,
)
    ensures
        ({
            let d = decoded(state, line, parsed);
            ||| in_sequence(state, d)
            ||| d.out.len() == 1 && d.out[0] is Err && d.state == state
        }),
{
    let start = Decoding { state, out: Seq::empty() };
    assert(in_sequence(state, start));
    lemma_turn_end_in_sequence(state, start, None);
    match parsed {
        Ok(chunk) => {
            let counted = Decoding { state: state.counting(chunk.usage), out: Seq::empty() };
            assert(in_sequence(state, counted));
            lemma_choices_in_sequence(state, counted, chunk.choices);
        },
        Err(_) => {},
    }
}

/// A tool call begins once: after its name came, no further piece begins it again.
pub proof fn lemma_call_begins_once(d: Decoding, i: usize, call: ToolCallView, k: int)
    ensures
        call.name.len() > 0 ==> d.tool_call(i, call).state.started.contains((i, call.index)),
        d.state.started.contains((i, call.index)) && d.out.len() <= k < d.tool_call(
            i,
            call,
        ).out.len() ==> d.tool_call(i, call).out[k] is Ok && d.tool_call(
            i,
            call,
        ).out[k]->Ok_0.payload is ToolCallDelta,
{
}

/// The content that a session tells.
pub open spec fn content_sent(sent: Seq<SessionEventView>) -> Seq<char>
    decreases sent.len(),
{
    if sent.len() == 0 {
        Seq::empty()
    } else {
        match sent.last() {
            SessionEventView::ContentDelta(delta) => content_sent(sent.drop_last()) + delta,
            _ => content_sent(sent.drop_last()),
        }
    }
}

/// The thoughts that a session tells.
pub open spec fn reasoning_sent(sent: Seq<SessionEventView>) -> Seq<char>
    decreases sent.len(),
{
    if sent.len() == 0 {
        Seq::empty()
    } else {
        match sent.last() {
            SessionEventView::ReasoningDelta(delta) => reasoning_sent(sent.drop_last()) + delta,
            _ => reasoning_sent(sent.drop_last()),
        }
    }
}

proof fn lemma_calls_tell_no_text(sent: Seq<SessionEventView>, calls: Seq<ToolCallView>)
    ensures
        content_sent(sent + call_events(calls)) == content_sent(sent),
        reasoning_sent(sent + call_events(calls)) == reasoning_sent(sent),
    decreases calls.len(),
{
    let all = sent + call_events(calls);
    if calls.len() == 0 {
        assert(all =~= sent);
    } else {
        lemma_calls_tell_no_text(sent, calls.drop_last());
        assert(all.drop_last() =~= sent + call_events(calls.drop_last()));
    }
}

proof fn lemma_events_tell_texts(x: Turning, es: Seq<Result<EventView, ErrorView>>)
    requires
        x.sent.len() == 0,
    ensures
        x.events(es).turn.content == x.turn.content + content_sent(x.events(es).sent),
        x.events(es).turn.reasoning == x.turn.reasoning + reasoning_sent(x.events(es).sent),
        x.events(es).turn.turn_id == x.turn.turn_id,
    decreases es.len(),
{
    if es.len() == 0 {
        assert(x.sent =~= Seq::<SessionEventView>::empty());
        assert(x.turn.content + content_sent(x.sent) =~= x.turn.content);
        assert(x.turn.reasoning + reasoning_sent(x.sent) =~= x.turn.reasoning);
    } else {
        lemma_events_tell_texts(x, es.drop_last());
        let y = x.events(es.drop_last());
        let z = y.event(es.last());
        if y.step == StepView::Continue {
            match es.last() {
                Ok(event) => {
                    match event.payload {
                        PayloadView::AssistantContentDelta { delta } => {
                            assert(z.sent.drop_last() =~= y.sent);
                            assert(z.turn.content =~= x.turn.content + content_sent(z.sent));
                        },
                        PayloadView::AssistantReasoningDelta { delta } => {
                            assert(z.sent.drop_last() =~= y.sent);
                            assert(z.turn.reasoning =~= x.turn.reasoning + reasoning_sent(z.sent));
                        },
                        PayloadView::ToolCallStart { index, tool_name } => {
                            assert(z.sent.drop_last() =~= y.sent);
                        },
                        PayloadView::ToolCallsRequired => {
                            lemma_calls_tell_no_text(y.sent, y.turn.calls_complete().tool_calls);
                        },
                        _ => {},
                    }
                },
                Err(_) => {},
            }
        }
    }
}

/// What a turn records is what it told: with every line the recorded content and thoughts grow by
/// exactly what the user is told.
pub proof fn lemma_recorded_is_told(
    turn: StreamTurnView,
    line: Seq<char>,
    parsed: Result<ChunkView, Seq<char>>,
)
    ensures
        turned(turn, line, parsed).turn.content == turn.content + content_sent(
            turned(turn, line, parsed).sent,
        ),
        turned(turn, line, parsed).turn.reasoning == turn.reasoning + reasoning_sent(
            turned(turn, line, parsed).sent,
        ),
        turned(turn, line, parsed).turn.turn_id == turn.turn_id,
{
    let d = decoded(turn.decoder, line, parsed);
    let x = Turning {
        turn: StreamTurnView { decoder: d.state, ..turn },
        sent: Seq::empty(),
        step: StepView::Continue,
    };
    lemma_events_tell_texts(x, d.out);
}

/// A reason for the end that was told is not overwritten by the end of the stream, which says no
/// more than that it stopped; and a turn whose calls are complete ends with them.
pub proof fn lemma_reason_stays(turn: StreamTurnView, told: Option<Seq<char>>, usage: Option<Usage>)
    requires
        told is None || told == Some("stop"@),
    ensures
        turn.finish_reason is Some && !turn.tool_calls_ready ==> turn.ended(
            StatusView::Completed,
            told,
            usage,
        ).0.finish_reason == turn.finish_reason,
        turn.tool_calls_ready ==> turn.ended(
            StatusView::Completed,
            told,
            usage,
        ).0.finish_reason == Some("tool_calls"@) && turn.ended(
            StatusView::Completed,
            told,
            usage,
        ).0.tool_calls == turn.tool_calls,
{
}

/// A turn that failed calls no tools, but keeps what it said and its counts.
pub proof fn lemma_failed_turn(turn: StreamTurnView, error: ErrorView)
    ensures
        turn.status is Error ==> turn.output().tool_calls is None,
        turn.output().content == turn.content && turn.output().reasoning == turn.reasoning,
        turn.has_something() ==> turn.failed(error).1 == StepView::Stop && turn.failed(
            error,
        ).0.content == turn.content && turn.failed(error).0.output().finish_reason == Some(
            "interrupted"@,
        ),
        !turn.has_something() && turn.counted().usage is None ==> turn.failed(error).1
            == StepView::Fail(error),
{
}

/// A turn that the user cancelled keeps what it said, and says that it was cancelled.
pub proof fn lemma_cancelled_turn(turn: StreamTurnView)
    ensures
        turn.cancelled().output().content == turn.content,
        turn.cancelled().output().reasoning == turn.reasoning,
        turn.cancelled().output().status == StatusView::Cancelled,
        turn.cancelled().output().finish_reason == Some("cancelled"@),
{
}

/// A stream that began a tool call and ends otherwise than with it has failed, and runs no tool.
pub proof fn lemma_unfinished_call_fails(
    turn: StreamTurnView,
    told: Option<Seq<char>>,
    usage: Option<Usage>,
)
    requires
        turn.saw_tool_call_start,
        !turn.tool_calls_ready,
        told != Some("tool_calls"@),
    ensures
        ({
            let (after, step) = turn.ended(StatusView::Completed, told, usage);
            &&& after.status is Error
            &&& step == StepView::Stop
            &&& after.output().tool_calls is None
        }),
{
    reveal_strlit("stop");
    reveal_strlit("tool_calls");
    assert("stop"@.len() != "tool_calls"@.len());
}

proof fn lemma_first_colon(a: Seq<char>, b: Seq<char>, x: Seq<char>, y: Seq<char>)
    requires
        all_digits(a),
        all_digits(b),
        x.len() > 0,
        y.len() > 0,
        x[0] == ':',
        y[0] == ':',
        a + x == b + y,
    ensures
        a == b,
        x == y,
{
    let u = a + x;
    let v = b + y;
    if a.len() < b.len() {
        assert(u[a.len() as int] == ':');
        assert(v[a.len() as int] == b[a.len() as int]);
    } else if a.len() > b.len() {
        assert(v[b.len() as int] == ':');
        assert(u[b.len() as int] == a[b.len() as int]);
    }
    assert(a =~= u.take(a.len() as int));
    assert(b =~= v.take(b.len() as int));
    assert(x =~= u.skip(a.len() as int));
    assert(y =~= v.skip(b.len() as int));
}

/// Tool calls of one session have different identifiers: two are the same only for the same turn
/// and the same number.
pub proof fn lemma_call_ids_differ(turn: u64, index: usize, other_turn: u64, other_index: usize)
    ensures
        call_id(turn, index) == call_id(other_turn, other_index) ==> turn == other_turn && index
            == other_index,
{
    if call_id(turn, index) == call_id(other_turn, other_index) {
        reveal_strlit("t");
        reveal_strlit(":idx:");
        let a = decimal(turn as nat);
        let b = decimal(other_turn as nat);
        let x = ":idx:"@ + decimal(index as nat);
        let y = ":idx:"@ + decimal(other_index as nat);
        lemma_decimal_value(turn as nat);
        lemma_decimal_value(other_turn as nat);
        lemma_decimal_value(index as nat);
        lemma_decimal_value(other_index as nat);
        assert((a + x) =~= call_id(turn, index).skip(1));
        assert((b + y) =~= call_id(other_turn, other_index).skip(1));
        assert(x[0] == ':' && y[0] == ':');
        lemma_first_colon(a, b, x, y);
        assert(decimal(index as nat) =~= x.skip(5));
        assert(decimal(other_index as nat) =~= y.skip(5));
    }
}

/// However the pieces of tool calls come, each call is collected under one number.
pub proof fn lemma_numbers_stay_apart(
    c: CollectedView,
    i: usize,
    name: Option<Seq<char>>,
    args: Seq<char>,
)
    requires
        c.order.no_duplicates(),
    ensures
        c.touched(i).order.no_duplicates(),
        c.touched(i).named(i, name).order.no_duplicates(),
        c.piece(i, name, args).order.no_duplicates(),
        CollectedView::nothing().order.no_duplicates(),
{
    if !c.order.contains(i) {
        let o = c.order.push(i);
        assert forall|a: int, b: int| 0 <= a < o.len() && 0 <= b < o.len() && a != b implies o[a]
            != o[b] by {
            if a < c.order.len() {
                assert(c.order.contains(c.order[a]));
            }
            if b < c.order.len() {
                assert(c.order.contains(c.order[b]));
            }
        }
    }
}

proof fn lemma_first_calls(c: CollectedView, turn_id: u64, n: nat)
    requires
        n <= c.order.len(),
    ensures
        forall|k: int| #![trigger c.first_calls(turn_id, n)[k]]
            0 <= k < c.first_calls(turn_id, n).len() ==> {
                let f = c.first_calls(turn_id, n)[k];
                &&& f == c.call(turn_id, f.index)
                &&& c.order.take(n as int).contains(f.index)
            },
        c.order.no_duplicates() ==> names_differ(c.first_calls(turn_id, n)),
    decreases n,
{
    if n > 0 {
        let m = (n - 1) as nat;
        lemma_first_calls(c, turn_id, m);
        let e = c.first_calls(turn_id, m);
        let f = c.first_calls(turn_id, n);
        let i = c.order[n - 1];
        let seen = c.order.take(n as int);
        assert(seen[n - 1] == i);
        assert forall|k: int| #![trigger f[k]] 0 <= k < f.len() implies f[k] == c.call(
            turn_id,
            f[k].index,
        ) && seen.contains(f[k].index) by {
            if k < e.len() {
                assert(f[k] == e[k]);
                let before = c.order.take(m as int);
                assert(before.contains(e[k].index));
                let p = choose|p: int| 0 <= p < before.len() && before[p] == e[k].index;
                assert(seen[p] == e[k].index);
            }
        }
        if c.order.no_duplicates() && f.len() > e.len() {
            assert forall|k: int, j: int| #![trigger f[k], f[j]] 0 <= k < j < f.len() implies f[k].id
                != f[j].id by {
                assert(f[k] == e[k]);
                if j < e.len() {
                    assert(f[j] == e[j]);
                } else {
                    let before = c.order.take(m as int);
                    assert(before.contains(e[k].index));
                    let p = choose|p: int| 0 <= p < before.len() && before[p] == e[k].index;
                    assert(c.order[p] == e[k].index);
                    lemma_call_ids_differ(turn_id, e[k].index, turn_id, i);
                }
            }
        }
    }
}

/// The calls of a turn have identifiers, and different ones, so that every result finds its call.
pub proof fn lemma_calls_named_apart(c: CollectedView, turn_id: u64)
    requires
        c.order.no_duplicates(),
    ensures
        names_differ(c.calls(turn_id)),
{
    lemma_first_calls(c, turn_id, c.order.len());
}

/// The thoughts that events tell.
pub open spec fn told_reasoning(out: Seq<Result<EventView, ErrorView>>) -> Seq<char>
    decreases out.len(),
{
    if out.len() == 0 {
        Seq::empty()
    } else {
        match out.last() {
            Ok(EventView { payload: PayloadView::AssistantReasoningDelta { delta }, .. }) =>
                told_reasoning(out.drop_last()) + delta,
            _ => told_reasoning(out.drop_last()),
        }
    }
}

/// The arguments that events tell of the call with a number.
pub open spec fn told_arguments(out: Seq<Result<EventView, ErrorView>>, index: usize) -> Seq<char>
    decreases out.len(),
{
    if out.len() == 0 {
        Seq::empty()
    } else {
        let earlier = told_arguments(out.drop_last(), index);
        match out.last() {
            Ok(EventView { payload: PayloadView::ToolCallDelta { index: i, args, .. }, .. }) => if i
                == index {
                earlier + args
            } else {
                earlier
            },
            _ => earlier,
        }
    }
}

/// A text that may be missing.
pub open spec fn or_nothing(s: Option<Seq<char>>) -> Seq<char> {
    match s {
        Some(t) => t,
        None => Seq::empty(),
    }
}

/// The contents of pieces of answers, one after another.
pub open spec fn contents_of(cs: Seq<ChoiceStreamView>) -> Seq<char>
    decreases cs.len(),
{
    if cs.len() == 0 {
        Seq::empty()
    } else {
        contents_of(cs.drop_last()) + or_nothing(cs.last().delta.content)
    }
}

/// The thoughts of pieces of answers, one after another.
pub open spec fn thoughts_of(cs: Seq<ChoiceStreamView>) -> Seq<char>
    decreases cs.len(),
{
    if cs.len() == 0 {
        Seq::empty()
    } else {
        thoughts_of(cs.drop_last()) + or_nothing(cs.last().delta.reasoning_content)
    }
}

/// The arguments in pieces of calls that are for the call with a number, one after another.
pub open spec fn arguments_for(calls: Seq<ToolCallView>, index: usize) -> Seq<char>
    decreases calls.len(),
{
    if calls.len() == 0 {
        Seq::empty()
    } else {
        arguments_for(calls.drop_last(), index) + if calls.last().index == index {
            calls.last().arguments
        } else {
            Seq::empty()
        }
    }
}

/// The pieces of calls in a piece of an answer.
pub open spec fn calls_in(c: ChoiceStreamView) -> Seq<ToolCallView> {
    match c.delta.tool_calls {
        Some(calls) => calls,
        None => Seq::empty(),
    }
}

/// The arguments in pieces of answers that are for the call with a number, one after another.
pub open spec fn all_arguments_for(cs: Seq<ChoiceStreamView>, index: usize) -> Seq<char>
    decreases cs.len(),
{
    if cs.len() == 0 {
        Seq::empty()
    } else {
        all_arguments_for(cs.drop_last(), index) + arguments_for(calls_in(cs.last()), index)
    }
}

/// Whether pieces of answers say what is new in them, and not all that there is by now.
pub open spec fn no_snapshots(cs: Seq<ChoiceStreamView>) -> bool {
    forall|k: int| #![trigger cs[k]]
        0 <= k < cs.len() ==> cs[k].delta.content_snapshot is None
            && cs[k].delta.reasoning_content_snapshot is None
}

/// What an event tells as content.
spec fn content_in(p: PayloadView) -> Seq<char> {
    match p {
        PayloadView::AssistantContentDelta { delta } => delta,
        _ => Seq::empty(),
    }
}

spec fn reasoning_in(p: PayloadView) -> Seq<char> {
    match p {
        PayloadView::AssistantReasoningDelta { delta } => delta,
        _ => Seq::empty(),
    }
}

spec fn arguments_in(p: PayloadView, index: usize) -> Seq<char> {
    match p {
        PayloadView::ToolCallDelta { index: i, args, .. } => if i == index {
            args
        } else {
            Seq::empty()
        },
        _ => Seq::empty(),
    }
}

/// What is told by one more event.
proof fn lemma_told_by_event(d: Decoding, p: PayloadView, index: usize)
    ensures
        told_content(d.emit(p).out) == told_content(d.out) + content_in(p),
        told_reasoning(d.emit(p).out) == told_reasoning(d.out) + reasoning_in(p),
        told_arguments(d.emit(p).out, index) == told_arguments(d.out, index) + arguments_in(
            p,
            index,
        ),
{
    let e = d.emit(p);
    assert(e.out.drop_last() =~= d.out);
    assert(told_content(d.out) + Seq::<char>::empty() =~= told_content(d.out));
    assert(told_reasoning(d.out) + Seq::<char>::empty() =~= told_reasoning(d.out));
    assert(told_arguments(d.out, index) + Seq::<char>::empty() =~= told_arguments(d.out, index));
}

proof fn lemma_told_by_texts(d: Decoding, s: Seq<char>, index: usize)
    ensures
        told_content(d.content(s).out) == told_content(d.out) + s,
        told_reasoning(d.content(s).out) == told_reasoning(d.out),
        told_arguments(d.content(s).out, index) == told_arguments(d.out, index),
        d.content(s).state.content == d.state.content,
        d.content(s).state.reasoning == d.state.reasoning,
        told_content(d.reasoning(s).out) == told_content(d.out),
        told_reasoning(d.reasoning(s).out) == told_reasoning(d.out) + s,
        told_arguments(d.reasoning(s).out, index) == told_arguments(d.out, index),
        d.reasoning(s).state.content == d.state.content,
        d.reasoning(s).state.reasoning == d.state.reasoning,
{
    lemma_told_by_event(d, PayloadView::AssistantContentDelta { delta: s }, index);
    lemma_told_by_event(d, PayloadView::AssistantReasoningDelta { delta: s }, index);
    let e = Seq::<char>::empty();
    assert(told_content(d.out) + e =~= told_content(d.out));
    assert(told_reasoning(d.out) + e =~= told_reasoning(d.out));
    assert(told_arguments(d.out, index) + e =~= told_arguments(d.out, index));
    if s.len() == 0 {
        assert(s =~= e);
    }
}

proof fn lemma_told_by_calls(d: Decoding, i: usize, calls: Seq<ToolCallView>, index: usize)
    ensures
        told_content(d.tool_calls(i, calls).out) == told_content(d.out),
        told_reasoning(d.tool_calls(i, calls).out) == told_reasoning(d.out),
        told_arguments(d.tool_calls(i, calls).out, index) == told_arguments(d.out, index)
            + arguments_for(calls, index),
        d.tool_calls(i, calls).state.content == d.state.content,
        d.tool_calls(i, calls).state.reasoning == d.state.reasoning,
    decreases calls.len(),
{
    let e = Seq::<char>::empty();
    assert(told_arguments(d.out, index) + e =~= told_arguments(d.out, index));
    if calls.len() > 0 {
        let earlier = calls.drop_last();
        lemma_told_by_calls(d, i, earlier, index);
        let b = d.tool_calls(i, earlier);
        let call = calls.last();
        let key = (i, call.index);
        let start = PayloadView::ToolCallStart { index: call.index, tool_name: call.name };
        let piece = PayloadView::ToolCallDelta {
            index: call.index,
            tool_name: if call.name.len() > 0 {
                Some(call.name)
            } else {
                None
            },
            args: call.arguments,
        };
        let begun = if call.name.len() > 0 && !b.state.started.contains(key) {
            Decoding {
                state: DecoderView { started: b.state.started.insert(key), ..b.state },
                ..b
            }.emit(start)
        } else {
            b
        };
        lemma_told_by_event(
            Decoding {
                state: DecoderView { started: b.state.started.insert(key), ..b.state },
                ..b
            },
            start,
            index,
        );
        lemma_told_by_event(begun, piece, index);
        let x = told_arguments(b.out, index);
        assert(x + e =~= x);
        assert(told_content(b.out) + e =~= told_content(b.out));
        assert(told_reasoning(b.out) + e =~= told_reasoning(b.out));
        if call.arguments.len() == 0 {
            assert(call.arguments =~= e);
        }
        assert(told_arguments(d.tool_calls(i, calls).out, index) =~= told_arguments(d.out, index)
            + arguments_for(calls, index));
    }
}

/// What is new in a snapshot that may be missing.
pub open spec fn new_in(
    last: Map<usize, Seq<char>>,
    i: usize,
    snapshot: Option<Seq<char>>,
) -> Seq<char> {
    match snapshot {
        Some(s) => if last.dom().contains(i) && last[i].len() <= s.len() && s.take(
            last[i].len() as int,
        ) == last[i] {
            s.skip(last[i].len() as int)
        } else {
            s
        },
        None => Seq::empty(),
    }
}

proof fn lemma_new_part(last: Map<usize, Seq<char>>, i: usize, s: Seq<char>)
    ensures
        new_part(last, i, s) == new_in(last, i, Some(s)),
{
    if last.dom().contains(i) && last[i].len() <= s.len() {
        let n = last[i].len() as int;
        assert(s.subrange(0, n) =~= s.take(n));
        assert(s.subrange(n, s.len() as int) =~= s.skip(n));
    }
}

/// Every text in a piece of an answer is told, character by character and in order: its content and
/// what is new in its snapshot, its thoughts in the same way, and the arguments of its calls. A
/// snapshot that begins with the one before it is new behind that; any other is new as a whole.
pub proof fn lemma_piece_is_told_in_full(d: Decoding, i: usize, c: ChoiceStreamView, index: usize)
    ensures
        told_content(d.choice(i, c).out) == told_content(d.out) + or_nothing(c.delta.content)
            + new_in(d.state.content, i, c.delta.content_snapshot),
        told_reasoning(d.choice(i, c).out) == told_reasoning(d.out) + or_nothing(
            c.delta.reasoning_content,
        ) + new_in(d.state.reasoning, i, c.delta.reasoning_content_snapshot),
        told_arguments(d.choice(i, c).out, index) == told_arguments(d.out, index) + arguments_for(
            calls_in(c),
            index,
        ),
        d.choice(i, c).state.content == match c.delta.content_snapshot {
            Some(s) => d.state.content.insert(i, s),
            None => d.state.content,
        },
        d.choice(i, c).state.reasoning == match c.delta.reasoning_content_snapshot {
            Some(s) => d.state.reasoning.insert(i, s),
            None => d.state.reasoning,
        },
{
    let e = Seq::<char>::empty();
    let content = or_nothing(c.delta.content);
    let thoughts = or_nothing(c.delta.reasoning_content);
    lemma_told_by_texts(d, content, index);
    let a = match c.delta.content {
        Some(s) => d.content(s),
        None => d,
    };
    assert(told_content(d.out) + e =~= told_content(d.out));
    assert(told_content(a.out) == told_content(d.out) + content);
    let more = new_in(d.state.content, i, c.delta.content_snapshot);
    let b = d.choice_contents(i, c);
    if c.delta.content_snapshot is Some {
        let s = c.delta.content_snapshot->0;
        lemma_new_part(d.state.content, i, s);
        let kept = Decoding {
            state: DecoderView { content: a.state.content.insert(i, s), ..a.state },
            ..a
        };
        lemma_told_by_texts(kept, more, index);
    } else {
        assert(told_content(a.out) + e =~= told_content(a.out));
    }
    assert(told_content(b.out) == told_content(d.out) + content + more);
    assert(told_reasoning(b.out) == told_reasoning(d.out));
    assert(told_arguments(b.out, index) == told_arguments(d.out, index));
    lemma_told_by_texts(b, thoughts, index);
    let f = match c.delta.reasoning_content {
        Some(s) => b.reasoning(s),
        None => b,
    };
    assert(told_reasoning(b.out) + e =~= told_reasoning(b.out));
    assert(told_reasoning(f.out) == told_reasoning(d.out) + thoughts);
    let deeper = new_in(d.state.reasoning, i, c.delta.reasoning_content_snapshot);
    let g = b.choice_reasoning(i, c);
    if c.delta.reasoning_content_snapshot is Some {
        let s = c.delta.reasoning_content_snapshot->0;
        lemma_new_part(d.state.reasoning, i, s);
        let kept = Decoding {
            state: DecoderView { reasoning: f.state.reasoning.insert(i, s), ..f.state },
            ..f
        };
        lemma_told_by_texts(kept, deeper, index);
    } else {
        assert(told_reasoning(f.out) + e =~= told_reasoning(f.out));
    }
    assert(told_reasoning(g.out) == told_reasoning(d.out) + thoughts + deeper);
    lemma_told_by_calls(g, i, calls_in(c), index);
    let h = match c.delta.tool_calls {
        Some(calls) => g.tool_calls(i, calls),
        None => g,
    };
    assert(told_arguments(g.out, index) + e =~= told_arguments(g.out, index));
    if c.finish_reason is Some {
        lemma_told_by_event(h, PayloadView::ToolCallsRequired, index);
        lemma_told_by_event(
            h,
            PayloadView::TurnEnd {
                status: StatusView::Completed,
                finish_reason: c.finish_reason,
                usage: h.state.pending,
            },
            index,
        );
        assert(told_content(h.out) + e =~= told_content(h.out));
        assert(told_reasoning(h.out) + e =~= told_reasoning(h.out));
        assert(told_arguments(h.out, index) + e =~= told_arguments(h.out, index));
    }
}

proof fn lemma_pieces_are_told_in_full(d: Decoding, cs: Seq<ChoiceStreamView>, index: usize)
    requires
        no_snapshots(cs),
    ensures
        told_content(d.choices(cs).out) == told_content(d.out) + contents_of(cs),
        told_reasoning(d.choices(cs).out) == told_reasoning(d.out) + thoughts_of(cs),
        told_arguments(d.choices(cs).out, index) == told_arguments(d.out, index)
            + all_arguments_for(cs, index),
    decreases cs.len(),
{
    let e = Seq::<char>::empty();
    if cs.len() == 0 {
        assert(told_content(d.out) + e =~= told_content(d.out));
        assert(told_reasoning(d.out) + e =~= told_reasoning(d.out));
        assert(told_arguments(d.out, index) + e =~= told_arguments(d.out, index));
    } else {
        let earlier = cs.drop_last();
        assert(no_snapshots(earlier)) by {
            assert forall|k: int| #![trigger earlier[k]] 0 <= k < earlier.len() implies
                earlier[k].delta.content_snapshot is None
                && earlier[k].delta.reasoning_content_snapshot is None by {
                assert(earlier[k] == cs[k]);
            }
        }
        lemma_pieces_are_told_in_full(d, earlier, index);
        let b = d.choices(earlier);
        let c = cs.last();
        assert(c == cs[cs.len() - 1]);
        lemma_piece_is_told_in_full(b, (cs.len() - 1) as usize, c, index);
        assert(told_content(d.choices(cs).out) =~= told_content(d.out) + contents_of(cs));
        assert(told_reasoning(d.choices(cs).out) =~= told_reasoning(d.out) + thoughts_of(cs));
        assert(told_arguments(d.choices(cs).out, index) =~= told_arguments(d.out, index)
            + all_arguments_for(cs, index));
    }
}

/// Whether a line holds a piece of the stream, and is neither empty nor the end mark.
pub open spec fn holds_a_piece(line: Seq<char>) -> bool {
    line_payload(line).len() > 0 && line_payload(line) != "[DONE]"@
}

/// Decoding a line loses no character: the contents that its events tell are the contents in the
/// line, put together, also where they are blanks or line breaks; and so are the thoughts and the
/// arguments of calls. Any other line tells no text.
pub proof fn lemma_line_is_told_in_full(
    state: DecoderView,
    line: Seq<char>,
    parsed: Result<ChunkView, Seq<char>>,
    index: usize,
)
    ensures
        holds_a_piece(line) && parsed is Ok && no_snapshots(parsed->Ok_0.choices) ==> {
            let out = decoded(state, line, parsed).out;
            &&& told_content(out) == contents_of(parsed->Ok_0.choices)
            &&& told_reasoning(out) == thoughts_of(parsed->Ok_0.choices)
            &&& told_arguments(out, index) == all_arguments_for(parsed->Ok_0.choices, index)
        },
        !holds_a_piece(line) || parsed is Err ==> {
            let out = decoded(state, line, parsed).out;
            &&& told_content(out).len() == 0
            &&& told_reasoning(out).len() == 0
            &&& told_arguments(out, index).len() == 0
        },
{
    let e = Seq::<char>::empty();
    let start = Decoding { state, out: Seq::empty() };
    let end = PayloadView::TurnEnd {
        status: StatusView::Completed,
        finish_reason: None,
        usage: state.pending,
    };
    lemma_told_by_event(start, end, index);
    if holds_a_piece(line) && parsed is Ok && no_snapshots(parsed->Ok_0.choices) {
        let chunk = parsed->Ok_0;
        let counted = Decoding { state: state.counting(chunk.usage), out: Seq::empty() };
        lemma_pieces_are_told_in_full(counted, chunk.choices, index);
        assert(e + contents_of(chunk.choices) =~= contents_of(chunk.choices));
        assert(e + thoughts_of(chunk.choices) =~= thoughts_of(chunk.choices));
        assert(e + all_arguments_for(chunk.choices, index) =~= all_arguments_for(
            chunk.choices,
            index,
        ));
    } else if holds_a_piece(line) && parsed is Err {
        let out = decoded(state, line, parsed).out;
        assert(out.drop_last() =~= Seq::<Result<EventView, ErrorView>>::empty());
    }
}

/// The end of an answer is told with its reason and with the counts that came: behind everything
/// else in the piece that has it, and nowhere else. A call for tools is told as such, and keeps the
/// counts for the end that follows.
pub proof fn lemma_end_is_told(d: Decoding, i: usize, c: ChoiceStreamView)
    ensures
        ({
            let f = d.choice(i, c);
            let last = f.out.last()->Ok_0.payload;
            match c.finish_reason {
                Some(reason) => {
                    &&& f.out.len() > d.out.len()
                    &&& f.out.last() is Ok
                    &&& reason == "tool_calls"@ ==> last == PayloadView::ToolCallsRequired
                        && f.state.pending == d.state.pending
                    &&& reason != "tool_calls"@ ==> last == (PayloadView::TurnEnd {
                        status: StatusView::Completed,
                        finish_reason: Some(reason),
                        usage: d.state.pending,
                    }) && f.state.pending is None
                },
                None => f.state.pending == d.state.pending,
            }
        }),
{
    lemma_pending_stays(d, i, c);
}

/// What a piece of an answer tells before its end.
spec fn before_end(d: Decoding, i: usize, c: ChoiceStreamView) -> Decoding {
    let a = d.choice_contents(i, c).choice_reasoning(i, c);
    match c.delta.tool_calls {
        Some(calls) => a.tool_calls(i, calls),
        None => a,
    }
}

/// Whether an event neither fails nor ends the answer.
spec fn is_quiet(e: Result<EventView, ErrorView>) -> bool {
    e is Ok && !(e->Ok_0.payload is TurnEnd) && !(e->Ok_0.payload is ToolCallsRequired)
}

/// Whether events neither fail nor end the answer.
spec fn quiet(out: Seq<Result<EventView, ErrorView>>) -> bool {
    forall|k: int| #![trigger out[k]] 0 <= k < out.len() ==> is_quiet(out[k])
}

proof fn lemma_quiet_event(d: Decoding, p: PayloadView)
    requires
        quiet(d.out),
        !(p is TurnEnd) && !(p is ToolCallsRequired),
    ensures
        quiet(d.emit(p).out),
{
    let e = d.emit(p);
    assert forall|k: int| #![trigger e.out[k]] 0 <= k < e.out.len() implies is_quiet(e.out[k]) by {
        if k < d.out.len() {
            assert(e.out[k] == d.out[k]);
        }
    }
}

proof fn lemma_calls_quiet(d: Decoding, i: usize, calls: Seq<ToolCallView>)
    ensures
        d.tool_calls(i, calls).state.pending == d.state.pending,
        d.tool_calls(i, calls).out.len() >= d.out.len(),
        quiet(d.out) ==> quiet(d.tool_calls(i, calls).out),
    decreases calls.len(),
{
    if calls.len() > 0 {
        lemma_calls_quiet(d, i, calls.drop_last());
        let b = d.tool_calls(i, calls.drop_last());
        let call = calls.last();
        let key = (i, call.index);
        let marked = Decoding {
            state: DecoderView { started: b.state.started.insert(key), ..b.state },
            ..b
        };
        let start = PayloadView::ToolCallStart { index: call.index, tool_name: call.name };
        let piece = PayloadView::ToolCallDelta {
            index: call.index,
            tool_name: if call.name.len() > 0 {
                Some(call.name)
            } else {
                None
            },
            args: call.arguments,
        };
        if quiet(d.out) {
            lemma_quiet_event(marked, start);
            lemma_quiet_event(marked.emit(start), piece);
            lemma_quiet_event(b, piece);
        }
    }
}

proof fn lemma_pending_stays(d: Decoding, i: usize, c: ChoiceStreamView)
    ensures
        before_end(d, i, c).state.pending == d.state.pending,
        before_end(d, i, c).out.len() >= d.out.len(),
        quiet(d.out) ==> quiet(before_end(d, i, c).out),
{
    let a = match c.delta.content {
        Some(s) => d.content(s),
        None => d,
    };
    if quiet(d.out) {
        lemma_quiet_event(
            d,
            PayloadView::AssistantContentDelta { delta: or_nothing(c.delta.content) },
        );
    }
    let b = d.choice_contents(i, c);
    if c.delta.content_snapshot is Some && quiet(d.out) {
        let s = c.delta.content_snapshot->0;
        let kept = Decoding {
            state: DecoderView { content: a.state.content.insert(i, s), ..a.state },
            ..a
        };
        lemma_quiet_event(
            kept,
            PayloadView::AssistantContentDelta { delta: new_part(a.state.content, i, s) },
        );
    }
    if quiet(d.out) {
        assert(quiet(b.out));
        lemma_quiet_event(
            b,
            PayloadView::AssistantReasoningDelta { delta: or_nothing(c.delta.reasoning_content) },
        );
    }
    let f = match c.delta.reasoning_content {
        Some(s) => b.reasoning(s),
        None => b,
    };
    if c.delta.reasoning_content_snapshot is Some && quiet(d.out) {
        let s = c.delta.reasoning_content_snapshot->0;
        let kept = Decoding {
            state: DecoderView { reasoning: f.state.reasoning.insert(i, s), ..f.state },
            ..f
        };
        lemma_quiet_event(
            kept,
            PayloadView::AssistantReasoningDelta { delta: new_part(f.state.reasoning, i, s) },
        );
    }
    let g = b.choice_reasoning(i, c);
    if quiet(d.out) {
        assert(quiet(g.out));
    }
    lemma_calls_quiet(g, i, calls_in(c));
}

/// Whether no piece but the last has an end.
pub open spec fn ends_last(cs: Seq<ChoiceStreamView>) -> bool {
    forall|k: int| #![trigger cs[k]] 0 <= k < cs.len() - 1 ==> cs[k].finish_reason is None
}

proof fn lemma_choices_quiet(d: Decoding, cs: Seq<ChoiceStreamView>)
    requires
        quiet(d.out),
        ends_last(cs),
    ensures
        ({
            let f = d.choices(cs);
            &&& quiet(f.out.drop_last()) || f.out.len() == 0
            &&& cs.len() == 0 || cs.last().finish_reason is None ==> quiet(f.out) && f.state.pending
                == d.state.pending
            &&& cs.len() > 0 && cs.last().finish_reason is Some ==> f.out.len() > 0 && f.out.last()
                is Ok && (f.out.last()->Ok_0.payload == PayloadView::ToolCallsRequired
                && f.state.pending == d.state.pending || f.out.last()->Ok_0.payload == (
            PayloadView::TurnEnd {
                status: StatusView::Completed,
                finish_reason: cs.last().finish_reason,
                usage: d.state.pending,
            }) && f.state.pending is None)
        }),
    decreases cs.len(),
{
    let f = d.choices(cs);
    if cs.len() > 0 {
        let earlier = cs.drop_last();
        assert forall|k: int| #![trigger earlier[k]] 0 <= k < earlier.len() - 1 implies
            earlier[k].finish_reason is None by {
            assert(earlier[k] == cs[k]);
        }
        if earlier.len() > 0 {
            assert(earlier.last() == cs[earlier.len() - 1]);
        }
        lemma_choices_quiet(d, earlier);
        let b = d.choices(earlier);
        let i = (cs.len() - 1) as usize;
        let c = cs.last();
        lemma_pending_stays(b, i, c);
        let h = before_end(b, i, c);
        if c.finish_reason is Some {
            assert(f.out.drop_last() =~= h.out);
        } else {
            assert(f == h);
        }
    }
    if quiet(f.out) && f.out.len() > 0 {
        let g = f.out.drop_last();
        assert forall|k: int| #![trigger g[k]] 0 <= k < g.len() implies is_quiet(g[k]) by {
            assert(g[k] == f.out[k]);
        }
    }
}

/// What a turn takes in of one event.
proof fn lemma_turn_takes_event(x: Turning, e: Result<EventView, ErrorView>, index: usize)
    requires
        x.step == StepView::Continue,
    ensures
        e is Ok ==> x.event(e).turn.content == x.turn.content + content_in(e->Ok_0.payload),
        e is Ok ==> x.event(e).turn.reasoning == x.turn.reasoning + reasoning_in(e->Ok_0.payload),
        e is Ok ==> text_at(x.event(e).turn.collected.args, index) == text_at(
            x.turn.collected.args,
            index,
        ) + arguments_in(e->Ok_0.payload, index),
        is_quiet(e) ==> x.event(e).step == StepView::Continue && x.event(e).turn.usage
            == x.turn.usage && x.event(e).turn.decoder == x.turn.decoder,
{
    if e is Ok {
        let y = x.event(e);
        let none = Seq::<char>::empty();
        assert(x.turn.content + none =~= x.turn.content);
        assert(x.turn.reasoning + none =~= x.turn.reasoning);
        let a = text_at(x.turn.collected.args, index);
        assert(a + none =~= a);
        assert(text_at(y.turn.collected.args, index) =~= a + arguments_in(e->Ok_0.payload, index));
    }
}

proof fn lemma_turn_takes_events(x: Turning, es: Seq<Result<EventView, ErrorView>>, index: usize)
    requires
        x.step == StepView::Continue,
        es.len() == 0 || (quiet(es.drop_last()) && es.last() is Ok),
    ensures
        x.events(es).turn.content == x.turn.content + told_content(es),
        x.events(es).turn.reasoning == x.turn.reasoning + told_reasoning(es),
        text_at(x.events(es).turn.collected.args, index) == text_at(x.turn.collected.args, index)
            + told_arguments(es, index),
        es.len() == 0 || is_quiet(es.last()) ==> x.events(es).step == StepView::Continue && x.events(
            es,
        ).turn.usage == x.turn.usage && x.events(es).turn.decoder == x.turn.decoder,
        es.len() > 0 ==> ({
            let y = x.events(es.drop_last());
            &&& y.step == StepView::Continue
            &&& y.turn.usage == x.turn.usage
            &&& y.turn.decoder == x.turn.decoder
        }),
    decreases es.len(),
{
    let none = Seq::<char>::empty();
    if es.len() == 0 {
        assert(x.turn.content + none =~= x.turn.content);
        assert(x.turn.reasoning + none =~= x.turn.reasoning);
        let a = text_at(x.turn.collected.args, index);
        assert(a + none =~= a);
    } else {
        let earlier = es.drop_last();
        if earlier.len() > 0 {
            assert(is_quiet(earlier[earlier.len() - 1]));
            let first = earlier.drop_last();
            assert forall|k: int| #![trigger first[k]] 0 <= k < first.len() implies is_quiet(
                first[k],
            ) by {
                assert(first[k] == earlier[k]);
            }
        }
        lemma_turn_takes_events(x, earlier, index);
        let y = x.events(earlier);
        lemma_turn_takes_event(y, es.last(), index);
        let p = es.last()->Ok_0.payload;
        assert(told_content(es) =~= told_content(earlier) + content_in(p));
        assert(told_reasoning(es) =~= told_reasoning(earlier) + reasoning_in(p));
        assert(told_arguments(es, index) =~= told_arguments(earlier, index) + arguments_in(
            p,
            index,
        ));
        assert(x.events(es).turn.content =~= x.turn.content + told_content(es));
        assert(x.events(es).turn.reasoning =~= x.turn.reasoning + told_reasoning(es));
        assert(text_at(x.events(es).turn.collected.args, index) =~= text_at(
            x.turn.collected.args,
            index,
        ) + told_arguments(es, index));
    }
}

/// The counts that a turn knows of: those that it has taken over, and those that came since.
pub open spec fn counts_so_far(turn: StreamTurnView) -> Option<Usage> {
    merged_usage(turn.usage, turn.decoder.pending)
}

proof fn lemma_merged_usage(a: Option<Usage>, b: Option<Usage>, c: Option<Usage>)
    ensures
        merged_usage(merged_usage(a, b), c) == merged_usage(a, merged_usage(b, c)),
        merged_usage(a, None) == a,
{
    if a is Some && b is Some && c is Some {
        lemma_merge_order(a->0, b->0, c->0);
    }
}

/// A turn takes in all that a line brings: its content grows by the contents in the line, character
/// by character, and so do its thoughts, the arguments of every call, and the counts.
pub proof fn lemma_turn_takes_the_line(
    turn: StreamTurnView,
    line: Seq<char>,
    chunk: ChunkView,
    index: usize,
)
    requires
        holds_a_piece(line),
        ends_last(chunk.choices),
    ensures
        ({
            let after = turned(turn, line, Ok(chunk)).turn;
            let out = decoded(turn.decoder, line, Ok(chunk)).out;
            &&& after.content == turn.content + told_content(out)
            &&& after.reasoning == turn.reasoning + told_reasoning(out)
            &&& text_at(after.collected.args, index) == text_at(turn.collected.args, index)
                + told_arguments(out, index)
            &&& no_snapshots(chunk.choices) ==> after.content == turn.content + contents_of(
                chunk.choices,
            )
            &&& no_snapshots(chunk.choices) ==> after.reasoning == turn.reasoning + thoughts_of(
                chunk.choices,
            )
            &&& no_snapshots(chunk.choices) ==> text_at(after.collected.args, index) == text_at(
                turn.collected.args,
                index,
            ) + all_arguments_for(chunk.choices, index)
            &&& counts_so_far(after) == merged_usage(counts_so_far(turn), chunk.usage)
        }),
{
    let d = decoded(turn.decoder, line, Ok(chunk));
    let counted = Decoding { state: turn.decoder.counting(chunk.usage), out: Seq::empty() };
    assert(quiet(counted.out));
    lemma_choices_quiet(counted, chunk.choices);
    let x = Turning {
        turn: StreamTurnView { decoder: d.state, ..turn },
        sent: Seq::empty(),
        step: StepView::Continue,
    };
    if d.out.len() > 0 && quiet(d.out) {
        assert(is_quiet(d.out[d.out.len() - 1]));
    }
    lemma_turn_takes_events(x, d.out, index);
    lemma_line_is_told_in_full(turn.decoder, line, Ok(chunk), index);
    let after = turned(turn, line, Ok(chunk)).turn;
    assert(after == x.events(d.out).turn);
    lemma_merged_usage(turn.usage, turn.decoder.pending, chunk.usage);
    lemma_merged_usage(turn.usage, counted.state.pending, None);
    assert(counted.state.pending == merged_usage(turn.decoder.pending, chunk.usage));
    if d.out.len() > 0 {
        let y = x.events(d.out.drop_last());
        assert(x.events(d.out) == y.event(d.out.last()));
    }
}

/// A turn after lines, one after another.
pub open spec fn after_lines(
    turn: StreamTurnView,
    lines: Seq<(Seq<char>, ChunkView)>,
) -> StreamTurnView
    decreases lines.len(),
{
    if lines.len() == 0 {
        turn
    } else {
        turned(after_lines(turn, lines.drop_last()), lines.last().0, Ok(lines.last().1)).turn
    }
}

/// The contents in lines, one after another.
pub open spec fn contents_of_lines(lines: Seq<(Seq<char>, ChunkView)>) -> Seq<char>
    decreases lines.len(),
{
    if lines.len() == 0 {
        Seq::empty()
    } else {
        contents_of_lines(lines.drop_last()) + contents_of(lines.last().1.choices)
    }
}

/// The thoughts in lines, one after another.
pub open spec fn thoughts_of_lines(lines: Seq<(Seq<char>, ChunkView)>) -> Seq<char>
    decreases lines.len(),
{
    if lines.len() == 0 {
        Seq::empty()
    } else {
        thoughts_of_lines(lines.drop_last()) + thoughts_of(lines.last().1.choices)
    }
}

/// The arguments in lines that are for the call with a number, one after another.
pub open spec fn arguments_of_lines(lines: Seq<(Seq<char>, ChunkView)>, index: usize) -> Seq<char>
    decreases lines.len(),
{
    if lines.len() == 0 {
        Seq::empty()
    } else {
        arguments_of_lines(lines.drop_last(), index) + all_arguments_for(
            lines.last().1.choices,
            index,
        )
    }
}

/// What a turn records of a stream is the stream, put together: its content is that of all lines,
/// one after another, and so are its thoughts and the arguments of every call.
pub proof fn lemma_turn_is_the_stream(
    turn_id: u64,
    lines: Seq<(Seq<char>, ChunkView)>,
    index: usize,
)
    requires
        forall|k: int| #![trigger lines[k]]
            0 <= k < lines.len() ==> holds_a_piece(lines[k].0) && ends_last(lines[k].1.choices)
                && no_snapshots(lines[k].1.choices),
    ensures
        ({
            let turn = after_lines(StreamTurnView::begun(turn_id), lines);
            &&& turn.content == contents_of_lines(lines)
            &&& turn.reasoning == thoughts_of_lines(lines)
            &&& text_at(turn.collected.args, index) == arguments_of_lines(lines, index)
            &&& turn.output().content == contents_of_lines(lines)
            &&& turn.output().reasoning == thoughts_of_lines(lines)
        }),
    decreases lines.len(),
{
    if lines.len() > 0 {
        let earlier = lines.drop_last();
        assert forall|k: int| #![trigger earlier[k]] 0 <= k < earlier.len() implies holds_a_piece(
            earlier[k].0,
        ) && ends_last(earlier[k].1.choices) && no_snapshots(earlier[k].1.choices) by {
            assert(earlier[k] == lines[k]);
        }
        lemma_turn_is_the_stream(turn_id, earlier, index);
        let last = lines[lines.len() - 1];
        assert(lines.last() == last);
        lemma_turn_takes_the_line(
            after_lines(StreamTurnView::begun(turn_id), earlier),
            last.0,
            last.1,
            index,
        );
    }
}

/// What a turn gives is what it took in: its texts, the counts that came, and its calls where it did
/// not fail.
pub proof fn lemma_turn_gives_what_it_took(turn: StreamTurnView)
    ensures
        turn.output().content == turn.content,
        turn.output().reasoning == turn.reasoning,
        turn.output().usage == counts_so_far(turn),
        turn.output().tool_calls is Some <==> turn.tool_calls.len() > 0 && !(turn.status is Error),
        turn.output().tool_calls is Some ==> turn.output().tool_calls->0 == turn.tool_calls,
        turn.finish_reason is Some ==> turn.output().finish_reason == turn.finish_reason
            && turn.output().status == turn.status,
        turn.finish_reason is None ==> turn.output().finish_reason == Some("stop"@),
        !turn.tool_calls_ready ==> turn.calls_complete().tool_calls == turn.collected.calls(
            turn.turn_id,
        ),
        turn.calls_complete().finish_reason == Some("tool_calls"@),
{
}

/// A turn ends for the reason that the stream tells, and with the counts that it tells.
pub proof fn lemma_told_reason_is_kept(
    turn: StreamTurnView,
    reason: Seq<char>,
    usage: Option<Usage>,
)
    requires
        !turn.tool_calls_ready,
        turn.finish_reason is None || reason != "stop"@,
    ensures
        turn.ended(StatusView::Completed, Some(reason), usage).0.finish_reason == Some(reason),
        turn.ended(StatusView::Completed, Some(reason), usage).0.usage == merged_usage(
            turn.usage,
            usage,
        ),
        !turn.saw_tool_call_start ==> turn.ended(
            StatusView::Completed,
            Some(reason),
            usage,
        ).0.status == StatusView::Completed,
{
}

/// The pieces of a call are put together under its number: its arguments one behind another, its
/// name as it was told last. Other calls do not change, and a number keeps its place.
pub proof fn lemma_pieces_are_put_together(
    c: CollectedView,
    i: usize,
    name: Option<Seq<char>>,
    args: Seq<char>,
    other: usize,
)
    ensures
        text_at(c.piece(i, name, args).args, i) == text_at(c.args, i) + args,
        other != i ==> text_at(c.piece(i, name, args).args, other) == text_at(c.args, other),
        other != i ==> text_at(c.piece(i, name, args).names, other) == text_at(c.names, other),
        name is Some && name->0.len() > 0 ==> text_at(c.piece(i, name, args).names, i) == name->0
            && text_at(c.touched(i).named(i, name).names, i) == name->0,
        name is None || name->0.len() == 0 ==> text_at(c.piece(i, name, args).names, i) == text_at(
            c.names,
            i,
        ),
        c.order.contains(i) ==> c.piece(i, name, args).order == c.order,
        !c.order.contains(i) ==> c.piece(i, name, args).order == c.order.push(i),
{
}

proof fn lemma_first_calls_in_order(c: CollectedView, turn_id: u64, n: nat)
    requires
        n <= c.order.len(),
    ensures
        ({
            let calls = c.first_calls(turn_id, n);
            let named = c.order.take(n as int).filter(|i: usize| text_at(c.names, i).len() > 0);
            &&& calls.len() == named.len()
            &&& forall|k: int| #![trigger calls[k]]
                0 <= k < calls.len() ==> calls[k] == c.call(turn_id, named[k])
        }),
    decreases n,
{
    let p = |i: usize| text_at(c.names, i).len() > 0;
    reveal(Seq::filter);
    if n > 0 {
        let m = (n - 1) as nat;
        lemma_first_calls_in_order(c, turn_id, m);
        let seen = c.order.take(n as int);
        assert(seen.drop_last() =~= c.order.take(m as int));
        assert(seen.last() == c.order[n - 1]);
        let calls = c.first_calls(turn_id, n);
        let e = c.first_calls(turn_id, m);
        let named = seen.filter(p);
        let before = c.order.take(m as int).filter(p);
        assert(named == if p(seen.last()) {
            before.push(seen.last())
        } else {
            before
        });
        assert forall|k: int| #![trigger calls[k]] 0 <= k < calls.len() implies calls[k] == c.call(
            turn_id,
            named[k],
        ) by {
            if k < e.len() {
                assert(calls[k] == e[k]);
                assert(named[k] == before[k]);
            }
        }
    }
}

/// The calls of a turn are those that have a name, in the order in which they began, each with the
/// name and the arguments that came for it. Arguments that are blank or no JSON become an empty
/// object.
pub proof fn lemma_calls_are_complete(c: CollectedView, turn_id: u64)
    ensures
        ({
            let calls = c.calls(turn_id);
            let named = c.order.filter(|i: usize| text_at(c.names, i).len() > 0);
            &&& calls.len() == named.len()
            &&& forall|k: int| #![trigger calls[k]]
                0 <= k < calls.len() ==> {
                    let args = text_at(c.args, named[k]);
                    &&& calls[k].index == named[k]
                    &&& calls[k].name == text_at(c.names, named[k])
                    &&& calls[k].call_type == Some("function"@)
                    &&& calls[k].id == Some(call_id(turn_id, named[k]))
                    &&& !is_blank(args) && json_parsed(args) is Some ==> calls[k].arguments == args
                    &&& is_blank(args) || json_parsed(args) is None ==> calls[k].arguments == "{}"@
                }
        }),
{
    lemma_first_calls_in_order(c, turn_id, c.order.len());
    assert(c.order.take(c.order.len() as int) =~= c.order);
}

/// A call begins to be told with its name, as soon as that comes.
pub proof fn lemma_call_is_begun(d: Decoding, i: usize, call: ToolCallView)
    requires
        call.name.len() > 0,
        !d.state.started.contains((i, call.index)),
    ensures
        ({
            let f = d.tool_call(i, call);
            &&& f.out.len() > d.out.len()
            &&& f.out[d.out.len() as int] is Ok
            &&& f.out[d.out.len() as int]->Ok_0.payload == (PayloadView::ToolCallStart {
                index: call.index,
                tool_name: call.name,
            })
        }),
{
}

/// What a plain session takes in of one event.
proof fn lemma_reply_takes_event(
    x: Replying,
    turn_id: u64,
    e: Result<EventView, ErrorView>,
    index: usize,
)
    requires
        x.step == StepView::Continue,
        e is Ok,
    ensures
        x.event(turn_id, e).reply.content == x.reply.content + content_in(e->Ok_0.payload),
        x.event(turn_id, e).reply.reasoning == x.reply.reasoning + reasoning_in(e->Ok_0.payload),
        text_at(x.event(turn_id, e).reply.collected.args, index) == text_at(
            x.reply.collected.args,
            index,
        ) + arguments_in(e->Ok_0.payload, index),
        is_quiet(e) ==> x.event(turn_id, e).step == StepView::Continue,
{
    let y = x.event(turn_id, e);
    let none = Seq::<char>::empty();
    assert(x.reply.content + none =~= x.reply.content);
    assert(x.reply.reasoning + none =~= x.reply.reasoning);
    let a = text_at(x.reply.collected.args, index);
    assert(a + none =~= a);
    assert(text_at(y.reply.collected.args, index) =~= a + arguments_in(e->Ok_0.payload, index));
}

proof fn lemma_reply_takes_events(
    x: Replying,
    turn_id: u64,
    es: Seq<Result<EventView, ErrorView>>,
    index: usize,
)
    requires
        x.step == StepView::Continue,
        es.len() == 0 || (quiet(es.drop_last()) && es.last() is Ok),
    ensures
        x.events(turn_id, es).reply.content == x.reply.content + told_content(es),
        x.events(turn_id, es).reply.reasoning == x.reply.reasoning + told_reasoning(es),
        text_at(x.events(turn_id, es).reply.collected.args, index) == text_at(
            x.reply.collected.args,
            index,
        ) + told_arguments(es, index),
        es.len() == 0 || is_quiet(es.last()) ==> x.events(turn_id, es).step == StepView::Continue,
    decreases es.len(),
{
    let none = Seq::<char>::empty();
    if es.len() == 0 {
        assert(x.reply.content + none =~= x.reply.content);
        assert(x.reply.reasoning + none =~= x.reply.reasoning);
        let a = text_at(x.reply.collected.args, index);
        assert(a + none =~= a);
    } else {
        let earlier = es.drop_last();
        if earlier.len() > 0 {
            assert(is_quiet(earlier[earlier.len() - 1]));
            let first = earlier.drop_last();
            assert forall|k: int| #![trigger first[k]] 0 <= k < first.len() implies is_quiet(
                first[k],
            ) by {
                assert(first[k] == earlier[k]);
            }
        }
        lemma_reply_takes_events(x, turn_id, earlier, index);
        let y = x.events(turn_id, earlier);
        lemma_reply_takes_event(y, turn_id, es.last(), index);
        let p = es.last()->Ok_0.payload;
        let z = x.events(turn_id, es);
        assert(told_content(es) =~= told_content(earlier) + content_in(p));
        assert(told_reasoning(es) =~= told_reasoning(earlier) + reasoning_in(p));
        assert(told_arguments(es, index) =~= told_arguments(earlier, index) + arguments_in(
            p,
            index,
        ));
        assert(z.reply.content =~= x.reply.content + told_content(es));
        assert(z.reply.reasoning =~= x.reply.reasoning + told_reasoning(es));
        assert(text_at(z.reply.collected.args, index) =~= text_at(x.reply.collected.args, index)
            + told_arguments(es, index));
    }
}

/// A plain session takes in all that a line brings, too: its answer grows by the contents in the
/// line, character by character, and so do its thoughts and the arguments of every call.
pub proof fn lemma_reply_takes_the_line(
    x: Replying,
    turn_id: u64,
    state: DecoderView,
    line: Seq<char>,
    chunk: ChunkView,
    index: usize,
)
    requires
        x.step == StepView::Continue,
        holds_a_piece(line),
        ends_last(chunk.choices),
        no_snapshots(chunk.choices),
    ensures
        ({
            let after = x.events(turn_id, decoded(state, line, Ok(chunk)).out).reply;
            &&& after.content == x.reply.content + contents_of(chunk.choices)
            &&& after.reasoning == x.reply.reasoning + thoughts_of(chunk.choices)
            &&& text_at(after.collected.args, index) == text_at(x.reply.collected.args, index)
                + all_arguments_for(chunk.choices, index)
            &&& after.output().content == after.content
            &&& after.output().reasoning == after.reasoning
        }),
{
    let d = decoded(state, line, Ok(chunk));
    let counted = Decoding { state: state.counting(chunk.usage), out: Seq::empty() };
    assert(quiet(counted.out));
    lemma_choices_quiet(counted, chunk.choices);
    if d.out.len() > 0 && quiet(d.out) {
        assert(is_quiet(d.out[d.out.len() - 1]));
    }
    lemma_reply_takes_events(x, turn_id, d.out, index);
    lemma_line_is_told_in_full(state, line, Ok(chunk), index);
}

/// Lines that hold no piece: an empty one tells nothing, the end mark tells the end with the counts
/// that came, and one that cannot be read tells why, with its text, and changes nothing.
pub proof fn lemma_other_lines(
    state: DecoderView,
    line: Seq<char>,
    parsed: Result<ChunkView, Seq<char>>,
)
    ensures
        ({
            let d = decoded(state, line, parsed);
            &&& line_payload(line).len() == 0 ==> d.out.len() == 0 && d.state == state
            &&& line_payload(line) == "[DONE]"@ ==> d.out.len() == 1 && d.out[0] is Ok
                && d.out[0]->Ok_0.payload == (PayloadView::TurnEnd {
                status: StatusView::Completed,
                finish_reason: None,
                usage: state.pending,
            }) && d.state.pending is None
            &&& holds_a_piece(line) && parsed is Err ==> d.out.len() == 1 && d.out[0] is Err
                && d.out[0]->Err_0.code == ErrorCode::LlmStreamProtocolError
                && d.out[0]->Err_0.text("source"@) == Some(parsed->Err_0) && d.out[0]->Err_0.text(
                "line"@,
            ) == Some(line_payload(line)) && d.state == state
        }),
{
    reveal_strlit("[DONE]");
    reveal_strlit("source");
    reveal_strlit("line");
    assert("source"@.len() != "line"@.len());
}

/// The user is told of every call: of its name as soon as it begins, and of the whole of it, once,
/// when all are complete.
pub proof fn lemma_calls_are_told(x: Turning, index: usize, name: Seq<char>, k: int)
    requires
        x.step == StepView::Continue,
    ensures
        x.payload(PayloadView::ToolCallStart { index, tool_name: name }).sent == x.sent.push(
            SessionEventView::ToolCall { index, name, arguments: Seq::empty() },
        ),
        x.payload(PayloadView::ToolCallStart { index, tool_name: name }).turn.saw_tool_call_start,
        x.turn.tool_calls_ready ==> x.payload(PayloadView::ToolCallsRequired).sent == x.sent,
        !x.turn.tool_calls_ready ==> {
            let after = x.payload(PayloadView::ToolCallsRequired);
            let calls = x.turn.collected.calls(x.turn.turn_id);
            &&& after.turn.tool_calls == calls
            &&& after.turn.tool_calls_ready
            &&& after.step == StepView::Continue
            &&& after.sent.len() == x.sent.len() + calls.len()
            &&& after.sent.take(x.sent.len() as int) == x.sent
            &&& 0 <= k < calls.len() ==> after.sent[x.sent.len() + k]
                == (SessionEventView::ToolCall {
                index: calls[k].index,
                name: calls[k].name,
                arguments: calls[k].arguments,
            })
        },
{
    if !x.turn.tool_calls_ready {
        let after = x.payload(PayloadView::ToolCallsRequired);
        assert(after.sent.take(x.sent.len() as int) =~= x.sent);
    }
}

/// A stream is read to its end: a turn that ended well is read on until its counts have come, any
/// other end stops it at once, and an error cuts it short.
pub proof fn lemma_when_a_stream_is_done(
    turn: StreamTurnView,
    told: Option<Seq<char>>,
    usage: Option<Usage>,
    e: ErrorView,
)
    requires
        !turn.saw_tool_call_start,
        !turn.tool_calls_ready,
    ensures
        turn.ended(StatusView::Completed, told, usage).1 == StepView::Continue <==> turn.usage
            is None && usage is None,
        turn.ended(StatusView::Completed, told, usage).1 == StepView::Stop <==> turn.usage is Some
            || usage is Some,
        turn.ended(StatusView::Cancelled, told, usage).1 == StepView::Stop,
        turn.ended(StatusView::Interrupted, told, usage).1 == StepView::Stop,
        turn.has_something() ==> turn.ended(StatusView::Error(e), told, usage).1 == StepView::Stop,
        !turn.has_something() ==> turn.ended(StatusView::Error(e), told, usage).1
            == StepView::Fail(e),
        turn.ended(StatusView::Cancelled, told, usage).0.finish_reason == Some("cancelled"@),
        turn.ended(StatusView::Interrupted, told, usage).0.finish_reason == Some("interrupted"@),
        stops_after_end(StatusView::Completed, usage) <==> usage is Some,
        stops_after_end(StatusView::Error(e), None),
{
    reveal_strlit("stop");
    reveal_strlit("cancelled");
    reveal_strlit("interrupted");
    assert("stop"@.len() == 4 && "cancelled"@.len() == 9 && "interrupted"@.len() == 11);
}

/// A turn that is cut short, by an error or by the user, keeps all that came: its texts and its
/// counts; and it says what cut it short.
pub proof fn lemma_cut_short_keeps_all(turn: StreamTurnView, error: ErrorView)
    ensures
        ({
            let (after, step) = turn.failed(error);
            &&& after.content == turn.content
            &&& after.reasoning == turn.reasoning
            &&& after.output().usage == counts_so_far(turn)
            &&& step == StepView::Stop ==> after.status == StatusView::Error(error)
            &&& step == StepView::Stop <==> turn.content.len() > 0 || turn.reasoning.len() > 0
                || counts_so_far(turn) is Some
        }),
        turn.cancelled().output().usage == counts_so_far(turn),
        turn.cancelled().output().tool_calls is Some <==> turn.tool_calls.len() > 0,
{
    lemma_merged_usage(turn.usage, turn.decoder.pending, None);
}

/// A call that was begun and not finished is an error that says how the stream ended, in which turn,
/// and how much had come.
pub proof fn lemma_unfinished_call_is_told(
    reason: Seq<char>,
    turn_id: u64,
    content_chars: nat,
    reasoning_chars: nat,
)
    ensures
        ({
            let e = unfinished_call(reason, turn_id, content_chars, reasoning_chars);
            &&& e.code == ErrorCode::LlmStreamProtocolError
            &&& e.text("finish_reason"@) == Some(reason)
            &&& e.detail.dom().contains("turn_id"@) && e.detail["turn_id"@] == JsonView::Int(
                turn_id as int,
            )
            &&& e.detail.dom().contains("content_chars"@) && e.detail["content_chars"@]
                == JsonView::Int(content_chars as int)
            &&& e.detail.dom().contains("reasoning_chars"@) && e.detail["reasoning_chars"@]
                == JsonView::Int(reasoning_chars as int)
        }),
{
    reveal_strlit("finish_reason");
    reveal_strlit("turn_id");
    reveal_strlit("content_chars");
    reveal_strlit("reasoning_chars");
    assert("finish_reason"@[0] != "content_chars"@[0]);
    assert("finish_reason"@.len() == 13 && "turn_id"@.len() == 7);
    assert("content_chars"@.len() == 13 && "reasoning_chars"@.len() == 15);
}

} // verus!
