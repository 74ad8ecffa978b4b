//! Making a conversation acceptable to services: every tool call with its result, no answer that
//! says nothing, no two answers in a row.

use crate::llm::provider::LLMSession;
use crate::llm::rounds::{lemma_results_end, results_end};
use crate::llm::types::{lemma_roles, Message, MessageView, ToolCall, ToolCallView};
use crate::model::{
    duplicate_all_option, duplicate_option, lemma_views_insert, lemma_views_push,
    lemma_views_update, text_or_empty, view_opt, views,
};
use crate::text::same_text;
use vstd::prelude::*;

verus! {

/// What the model is told where a call has no result.
pub const MISSING_RESULT: &'static str = "工具执行失败: 未取得该调用的结果";

/// The result of a call that has none.
pub open spec fn missing(call: ToolCallView) -> MessageView {
    MessageView { tool_call_id: call.id, ..MessageView::plain("tool"@, MISSING_RESULT@) }
}

/// The place of the first result that names a call.
pub open spec fn result_named(results: Seq<MessageView>, id: Option<Seq<char>>, from: int) -> Option<
    int,
>
    decreases results.len() - from,
{
    if from >= results.len() || id is None {
        None
    } else if results[from].tool_call_id == id {
        Some(from)
    } else {
        result_named(results, id, from + 1)
    }
}

/// Whether a result names one of the calls.
pub open spec fn names_call(calls: Seq<ToolCallView>, id: Option<Seq<char>>) -> bool {
    id is Some && exists|k: int| #![trigger calls[k]] 0 <= k < calls.len() && calls[k].id == id
}

/// The result of a call: the one that names it; else the one at its place, if that names no call;
/// else one that says it is missing.
pub open spec fn result_for(calls: Seq<ToolCallView>, results: Seq<MessageView>, k: int) -> MessageView {
    match result_named(results, calls[k].id, 0) {
        Some(j) => results[j],
        None => if k < results.len() && !names_call(calls, results[k].tool_call_id) {
            MessageView { tool_call_id: calls[k].id, ..results[k] }
        } else {
            missing(calls[k])
        },
    }
}

/// One result for each call, in the order of the calls.
pub open spec fn results_for(calls: Seq<ToolCallView>, results: Seq<MessageView>) -> Seq<MessageView> {
    Seq::new(calls.len(), |k: int| result_for(calls, results, k))
}

/// Whether a message is an answer that calls tools.
pub open spec fn calling(m: MessageView) -> bool {
    m.role == "assistant"@ && m.calls_tools()
}

/// A conversation from a message on, with one result for each call and no other tool messages.
pub open spec fn repaired_from(s: Seq<MessageView>, i: int) -> Seq<MessageView>
    decreases s.len() - i,
    when 0 <= i
{
    if i >= s.len() {
        Seq::empty()
    } else if calling(s[i]) {
        proof {
            lemma_results_end(s, i + 1);
        }
        let e = results_end(s, i + 1);
        seq![s[i]] + results_for(s[i].tool_calls->0, s.subrange(i + 1, e)) + repaired_from(s, e)
    } else if s[i].role == "tool"@ {
        repaired_from(s, i + 1)
    } else {
        seq![s[i]] + repaired_from(s, i + 1)
    }
}

/// Whether, from a message on, every answer that calls tools is followed by the results of its
/// calls, in their order and under their names, and there are no other tool messages.
pub open spec fn paired_from(s: Seq<MessageView>, i: int) -> bool
    decreases s.len() - i,
    when 0 <= i
{
    if i >= s.len() {
        true
    } else if calling(s[i]) {
        let calls = s[i].tool_calls->0;
        let e = i + 1 + calls.len();
        &&& e <= s.len()
        &&& forall|k: int| #![trigger calls[k]]
            0 <= k < calls.len() ==> s[i + 1 + k].role == "tool"@ && s[i + 1 + k].tool_call_id
                == calls[k].id
        &&& paired_from(s, e as int)
    } else {
        s[i].role != "tool"@ && paired_from(s, i + 1)
    }
}

fn same_id(a: &Option<String>, b: &Option<String>) -> (r: bool)
    ensures
        r == (view_opt(*a) == view_opt(*b)),
{
    match (a, b) {
        (Some(x), Some(y)) => same_text(x.as_str(), y.as_str()),
        (None, None) => true,
        _ => false,
    }
}

fn find_named(results: &Vec<Message>, from: usize, to: usize, id: &Option<String>) -> (r: Option<
    usize,
>)
    requires
        from <= to <= results@.len(),
    ensures
        match r {
            Some(j) => result_named(
                views(results@).subrange(from as int, to as int),
                view_opt(*id),
                0,
            ) == Some(j - from) && from <= j < to,
            None => result_named(
                views(results@).subrange(from as int, to as int),
                view_opt(*id),
                0,
            ) is None,
        },
{
    let ghost s = views(results@).subrange(from as int, to as int);
    if id.is_none() {
        return None;
    }
    let mut j: usize = from;
    while j < to
        invariant
            from <= j <= to <= results@.len(),
            s == views(results@).subrange(from as int, to as int),
            view_opt(*id) is Some,
            result_named(s, view_opt(*id), 0) == result_named(s, view_opt(*id), j - from),
        decreases to - j,
    {
        assert(s[j - from] == results@[j as int]@);
        if same_id(&results[j].tool_call_id, id) {
            return Some(j);
        }
        j = j + 1;
    }
    None
}

fn is_named(calls: &Vec<ToolCall>, id: &Option<String>) -> (r: bool)
    ensures
        r == names_call(views(calls@), view_opt(*id)),
{
    if id.is_none() {
        return false;
    }
    let ghost c = views(calls@);
    let mut k: usize = 0;
    while k < calls.len()
        invariant
            k <= calls@.len(),
            c == views(calls@),
            view_opt(*id) is Some,
            forall|j: int| #![trigger c[j]] 0 <= j < k ==> c[j].id != view_opt(*id),
        decreases calls@.len() - k,
    {
        assert(c[k as int] == calls@[k as int]@);
        if same_id(&calls[k].id, id) {
            return true;
        }
        k = k + 1;
    }
    false
}

fn push_results(
    out: &mut Vec<Message>,
    calls: &Vec<ToolCall>,
    messages: &Vec<Message>,
    from: usize,
    to: usize,
)
    requires
        from <= to <= messages@.len(),
    ensures
        views(final(out)@) == views(old(out)@) + results_for(
            views(calls@),
            views(messages@).subrange(from as int, to as int),
        ),
{
    let ghost before = views(out@);
    let ghost c = views(calls@);
    let ghost results = views(messages@).subrange(from as int, to as int);
    let ghost all = results_for(c, results);
    let mut k: usize = 0;
    assert(views(out@) =~= before + all.take(0));
    while k < calls.len()
        invariant
            k <= calls@.len(),
            from <= to <= messages@.len(),
            c == views(calls@),
            results == views(messages@).subrange(from as int, to as int),
            all == results_for(c, results),
            views(out@) == before + all.take(k as int),
        decreases calls@.len() - k,
    {
        assert(c[k as int] == calls@[k as int]@);
        let id: Option<String> = duplicate_option(&calls[k].id);
        let item: Message = match find_named(messages, from, to, &id) {
            Some(j) => {
                assert(results[j - from] == messages@[j as int]@);
                messages[j].clone()
            },
            None => {
                let free: bool = if k < to - from {
                    assert(results[k as int] == messages@[from + k]@);
                    !is_named(calls, &messages[from + k].tool_call_id)
                } else {
                    false
                };
                if free {
                    let mut m: Message = messages[from + k].clone();
                    m.tool_call_id = id;
                    m
                } else {
                    Message {
                        role: "tool".to_owned(),
                        content: Some(MISSING_RESULT.to_owned()),
                        reasoning_content: None,
                        tool_call_id: id,
                        tool_calls: None,
                    }
                }
            },
        };
        assert(item@ =~= all[k as int]);
        proof {
            lemma_views_push(out@, item);
            assert(all.take(k + 1) =~= all.take(k as int).push(item@));
        }
        out.push(item);
        assert(views(out@) =~= before + all.take(k + 1));
        k = k + 1;
    }
    assert(all.take(k as int) =~= all);
}

impl LLMSession {
    /// Gives every tool call one result, in the order of the calls and under its name, and leaves out
    /// tool messages that belong to no call.
    pub fn sanitize_tool_call_blocks(messages: Vec<Message>) -> (r: Vec<Message>)
        ensures
            views(r@) == repaired_from(views(messages@), 0),
    {
        let ghost s = views(messages@);
        let n: usize = messages.len();
        let mut out: Vec<Message> = Vec::new();
        let mut i: usize = 0;
        assert(views(out@) =~= Seq::<MessageView>::empty());
        assert(views(out@) + repaired_from(s, 0) =~= repaired_from(s, 0));
        while i < n
            invariant
                i <= n == messages@.len(),
                s == views(messages@),
                views(out@) + repaired_from(s, i as int) == repaired_from(s, 0),
            decreases n - i,
        {
            let m: &Message = &messages[i];
            let ghost before = views(out@);
            proof {
                assert(s[i as int] == m@);
                lemma_roles();
            }
            let role: &str = m.role.as_str();
            let mut handled: bool = false;
            if same_text(role, "assistant") {
                match &m.tool_calls {
                    Some(calls) => {
                        if calls.len() > 0 {
                            handled = true;
                            let mut e: usize = i + 1;
                            while e < n && same_text(messages[e].role.as_str(), "tool")
                                invariant
                                    i < e <= n == messages@.len(),
                                    s == views(messages@),
                                    results_end(s, i + 1) == results_end(s, e as int),
                                decreases n - e,
                            {
                                assert(s[e as int] == messages@[e as int]@);
                                e = e + 1;
                            }
                            proof {
                                if e < n {
                                    assert(s[e as int] == messages@[e as int]@);
                                }
                            }
                            let copy: Message = m.clone();
                            proof {
                                lemma_views_push(out@, copy);
                            }
                            out.push(copy);
                            push_results(&mut out, calls, &messages, i + 1, e);
                            proof {
                                let middle = results_for(views(calls@), s.subrange(i + 1, e as int));
                                assert(views(out@) == before.push(s[i as int]) + middle);
                                assert(views(out@) + repaired_from(s, e as int) =~= before + (seq![
                                    s[i as int],
                                ] + middle + repaired_from(s, e as int)));
                            }
                            i = e;
                        }
                    },
                    None => {},
                }
            }
            if !handled {
                if !same_text(role, "tool") {
                    let copy: Message = m.clone();
                    proof {
                        lemma_views_push(out@, copy);
                        assert(before.push(s[i as int]) + repaired_from(s, i + 1) =~= before + (seq![
                            s[i as int],
                        ] + repaired_from(s, i + 1)));
                    }
                    out.push(copy);
                }
                i = i + 1;
            }
        }
        assert(views(out@) + repaired_from(s, i as int) =~= views(out@));
        out
    }
}

proof fn lemma_result_named(results: Seq<MessageView>, id: Option<Seq<char>>, from: int)
    requires
        0 <= from,
    ensures
        match result_named(results, id, from) {
            Some(j) => from <= j < results.len() && results[j].tool_call_id == id && id is Some,
            None => id is Some ==> forall|j: int| #![trigger results[j]]
                from <= j < results.len() ==> results[j].tool_call_id != id,
        },
    decreases results.len() - from,
{
    if from < results.len() && id is Some && results[from].tool_call_id != id {
        lemma_result_named(results, id, from + 1);
    }
}

proof fn lemma_paired_prefix(a: Seq<MessageView>, b: Seq<MessageView>, i: int)
    requires
        0 <= i,
        paired_from(b, i),
    ensures
        paired_from(a + b, a.len() + i),
    decreases b.len() - i,
{
    let w = a + b;
    if i < b.len() {
        assert(w[a.len() + i] == b[i]);
        if calling(b[i]) {
            let calls = b[i].tool_calls->0;
            let e = i + 1 + calls.len();
            lemma_paired_prefix(a, b, e as int);
            assert forall|k: int| #![trigger calls[k]] 0 <= k < calls.len() implies w[a.len() + i + 1
                + k].role == "tool"@ && w[a.len() + i + 1 + k].tool_call_id == calls[k].id by {
                assert(w[a.len() + i + 1 + k] == b[i + 1 + k]);
            }
            assert(paired_from(w, (a.len() + i + 1 + calls.len()) as int));
        } else {
            lemma_paired_prefix(a, b, i + 1);
        }
    }
}

/// After the repair every answer that calls tools is followed by exactly the results of its calls,
/// and there are no other tool messages.
pub proof fn lemma_repair_pairs(s: Seq<MessageView>, i: int)
    requires
        0 <= i,
    ensures
        paired_from(repaired_from(s, i), 0),
    decreases s.len() - i,
{
    lemma_roles();
    if i < s.len() {
        if calling(s[i]) {
            lemma_results_end(s, i + 1);
            let e = results_end(s, i + 1);
            let calls = s[i].tool_calls->0;
            let results = s.subrange(i + 1, e);
            let head = seq![s[i]] + results_for(calls, results);
            let rest = repaired_from(s, e);
            lemma_repair_pairs(s, e);
            lemma_paired_prefix(head, rest, 0);
            let w = repaired_from(s, i);
            assert(w == head + rest);
            assert(w[0] == s[i]);
            assert forall|k: int| #![trigger calls[k]] 0 <= k < calls.len() implies w[1 + k].role
                == "tool"@ && w[1 + k].tool_call_id == calls[k].id by {
                assert(w[1 + k] == result_for(calls, results, k));
                lemma_result_named(results, calls[k].id, 0);
                assert forall|j: int| 0 <= j < results.len() implies (#[trigger] results[j]).role
                    == "tool"@ by {
                    assert(results[j] == s[i + 1 + j]);
                }
            }
            assert(paired_from(w, (1 + calls.len()) as int));
        } else if s[i].role == "tool"@ {
            lemma_repair_pairs(s, i + 1);
        } else {
            lemma_repair_pairs(s, i + 1);
            let head = seq![s[i]];
            lemma_paired_prefix(head, repaired_from(s, i + 1), 0);
            assert(repaired_from(s, i)[0] == s[i]);
        }
    }
}

/// Whether the calls of every message have names, and different ones.
pub open spec fn calls_named(s: Seq<MessageView>) -> bool {
    forall|i: int| #![trigger s[i]]
        0 <= i < s.len() && calling(s[i]) ==> names_differ(s[i].tool_calls->0)
}

/// Whether calls have names, and different ones.
pub open spec fn names_differ(calls: Seq<ToolCallView>) -> bool {
    &&& forall|k: int| #![trigger calls[k]] 0 <= k < calls.len() ==> calls[k].id is Some
    &&& forall|k: int, j: int| #![trigger calls[k], calls[j]]
        0 <= k < j < calls.len() ==> calls[k].id != calls[j].id
}

/// A conversation that needs no repair stays as it is.
pub proof fn lemma_repair_keeps_paired(s: Seq<MessageView>, i: int)
    requires
        0 <= i <= s.len(),
        paired_from(s, i),
        calls_named(s),
    ensures
        repaired_from(s, i) == s.skip(i),
    decreases s.len() - i,
{
    lemma_roles();
    if i < s.len() {
        if calling(s[i]) {
            let calls = s[i].tool_calls->0;
            let e = i + 1 + calls.len();
            assert forall|j: int| i + 1 <= j < e implies (#[trigger] s[j]).role == "tool"@ by {
                assert(calls[j - i - 1].id is Some);
            }
            lemma_results_run(s, i + 1, e as int);
            let results = s.subrange(i + 1, e as int);
            assert forall|k: int| 0 <= k < calls.len() implies #[trigger] result_for(calls, results, k)
                == results[k] by {
                assert(calls[k].id is Some);
                assert forall|j: int| 0 <= j < calls.len() implies (#[trigger] results[j]).tool_call_id
                    == calls[j].id by {
                    assert(results[j] == s[i + 1 + j]);
                }
                lemma_result_named(results, calls[k].id, 0);
                assert(results[k].tool_call_id == calls[k].id);
                let j = result_named(results, calls[k].id, 0)->0;
                assert(calls[j].id == calls[k].id);
            }
            assert(results_for(calls, results) =~= results);
            lemma_repair_keeps_paired(s, e as int);
            assert(s.skip(i) =~= seq![s[i]] + results + s.skip(e as int));
        } else {
            lemma_repair_keeps_paired(s, i + 1);
            assert(s.skip(i) =~= seq![s[i]] + s.skip(i + 1));
        }
    } else {
        assert(s.skip(i) =~= Seq::<MessageView>::empty());
    }
}

proof fn lemma_results_run(s: Seq<MessageView>, from: int, e: int)
    requires
        0 <= from <= e <= s.len(),
        forall|j: int| from <= j < e ==> (#[trigger] s[j]).role == "tool"@,
        paired_from(s, e),
    ensures
        results_end(s, from) == e,
    decreases e - from,
{
    lemma_roles();
    if from < e {
        lemma_results_run(s, from + 1, e);
    }
}

/// Whether a message is an answer that neither says nor calls anything.
pub open spec fn silent(m: MessageView) -> bool {
    m.role == "assistant"@ && text_or_empty(m.content).len() == 0 && !m.calls_tools()
}

/// Two texts as one, where there are any.
pub open spec fn joined_texts(a: Option<Seq<char>>, b: Option<Seq<char>>) -> Option<Seq<char>> {
    match (a, b) {
        (Some(x), Some(y)) => Some(x + y),
        (Some(x), None) => Some(x),
        (None, y) => y,
    }
}

/// Two answers as one.
pub open spec fn joined_answers(a: MessageView, b: MessageView) -> MessageView {
    MessageView {
        content: joined_texts(a.content, b.content),
        reasoning_content: joined_texts(a.reasoning_content, b.reasoning_content),
        tool_calls: b.tool_calls,
        ..a
    }
}

/// A message in front of others: joined with the first of them where both are answers and the
/// message calls no tools.
pub open spec fn in_front(m: MessageView, rest: Seq<MessageView>) -> Seq<MessageView> {
    if rest.len() > 0 && m.role == "assistant"@ && !m.calls_tools() && rest[0].role == "assistant"@ {
        rest.update(0, joined_answers(m, rest[0]))
    } else {
        seq![m] + rest
    }
}

/// A conversation from a message on, without silent answers and with answers that follow each other
/// joined.
pub open spec fn tidied_from(s: Seq<MessageView>, i: int) -> Seq<MessageView>
    decreases s.len() - i,
{
    if i >= s.len() || i < 0 {
        Seq::empty()
    } else if silent(s[i]) {
        tidied_from(s, i + 1)
    } else {
        in_front(s[i], tidied_from(s, i + 1))
    }
}

fn join_texts(a: Option<String>, b: &Option<String>) -> (r: Option<String>)
    ensures
        view_opt(r) == joined_texts(view_opt(a), view_opt(*b)),
{
    match (a, b) {
        (Some(x), Some(y)) => {
            let mut t: String = x;
            t.append(y.as_str());
            Some(t)
        },
        (Some(x), None) => Some(x),
        (None, y) => duplicate_option(y),
    }
}

impl LLMSession {
    /// Leaves out answers that neither say nor call anything, and joins answers that follow each other.
    pub fn sanitize_messages(messages: Vec<Message>) -> (r: Vec<Message>)
        ensures
            views(r@) == tidied_from(views(messages@), 0),
    {
        let ghost s = views(messages@);
        let mut out: Vec<Message> = Vec::new();
        let mut i: usize = messages.len();
        assert(views(out@) =~= Seq::<MessageView>::empty());
        while i > 0
            invariant
                i <= messages@.len(),
                s == views(messages@),
                views(out@) == tidied_from(s, i as int),
            decreases i,
        {
            i = i - 1;
            let m: &Message = &messages[i];
            assert(s[i as int] == m@);
            let answer: bool = same_text(m.role.as_str(), "assistant");
            let calls: bool = match &m.tool_calls {
                Some(c) => c.len() > 0,
                None => false,
            };
            let says: bool = match &m.content {
                Some(c) => !c.as_str().is_empty(),
                None => false,
            };
            if !answer || says || calls {
                let ghost rest = views(out@);
                let follows: bool = if out.len() > 0 {
                    assert(rest[0] == out@[0]@);
                    same_text(out[0].role.as_str(), "assistant")
                } else {
                    false
                };
                let copy: Message = m.clone();
                if answer && !calls && follows {
                    let ghost before = out@;
                    let content: Option<String> = join_texts(copy.content, &out[0].content);
                    let reasoning_content: Option<String> = join_texts(
                        copy.reasoning_content,
                        &out[0].reasoning_content,
                    );
                    let tool_calls: Option<Vec<ToolCall>> = duplicate_all_option(&out[0].tool_calls);
                    let whole: Message = Message {
                        role: copy.role,
                        content,
                        reasoning_content,
                        tool_call_id: copy.tool_call_id,
                        tool_calls,
                    };
                    assert(whole@ =~= joined_answers(m@, rest[0]));
                    proof {
                        lemma_views_update(before, 0, whole);
                    }
                    out.set(0, whole);
                } else {
                    proof {
                        lemma_views_insert(out@, 0, copy);
                        assert(rest.insert(0, m@) =~= seq![m@] + rest);
                    }
                    out.insert(0, copy);
                }
            }
        }
        out
    }
}

/// Whether a conversation has no silent answers and no two answers in a row of which the first
/// calls no tools.
pub open spec fn tidy(s: Seq<MessageView>) -> bool {
    &&& forall|i: int| #![trigger s[i]] 0 <= i < s.len() ==> !silent(s[i])
    &&& forall|i: int, j: int| #![trigger s[i], s[j]]
        0 <= i && j == i + 1 && j < s.len() && s[i].role == "assistant"@ && s[j].role
            == "assistant"@ ==> s[i].calls_tools()
}

/// After tidying there are neither silent answers nor answers that should be one.
pub proof fn lemma_tidied(s: Seq<MessageView>, i: int)
    ensures
        tidy(tidied_from(s, i)),
    decreases s.len() - i,
{
    if 0 <= i < s.len() {
        lemma_tidied(s, i + 1);
        if !silent(s[i]) {
            let rest = tidied_from(s, i + 1);
            let r = tidied_from(s, i);
            assert forall|j: int| #![trigger r[j]] 0 <= j < r.len() implies !silent(r[j]) by {
                if r.len() == rest.len() {
                    if j > 0 {
                        assert(r[j] == rest[j]);
                    } else {
                        assert(!silent(rest[0]));
                    }
                } else if j > 0 {
                    assert(r[j] == rest[j - 1]);
                }
            }
            assert forall|j: int, k: int| #![trigger r[j], r[k]]
                0 <= j && k == j + 1 && k < r.len() && r[j].role == "assistant"@ && r[k].role
                    == "assistant"@ implies r[j].calls_tools() by {
                if r.len() == rest.len() {
                    assert(r[k] == rest[k]);
                    assert(j > 0 ==> r[j] == rest[j]);
                    assert(rest[j].role == "assistant"@ ==> rest[j].calls_tools());
                } else {
                    assert(r[k] == rest[j]);
                    if j > 0 {
                        assert(r[j] == rest[j - 1]);
                    }
                }
            }
        }
    }
}

/// A tidy conversation stays as it is.
pub proof fn lemma_tidying_keeps_tidy(s: Seq<MessageView>, i: int)
    requires
        0 <= i <= s.len(),
        tidy(s),
    ensures
        tidied_from(s, i) == s.skip(i),
    decreases s.len() - i,
{
    if i < s.len() {
        lemma_tidying_keeps_tidy(s, i + 1);
        assert(!silent(s[i]));
        assert(s.skip(i) =~= seq![s[i]] + s.skip(i + 1));
        if i + 1 < s.len() {
            assert(s.skip(i + 1)[0] == s[i + 1]);
        }
    } else {
        assert(s.skip(i) =~= Seq::<MessageView>::empty());
    }
}

proof fn lemma_tidied_results(s: Seq<MessageView>, i: int, e: int)
    requires
        0 <= i <= e <= s.len(),
        forall|j: int| i <= j < e ==> (#[trigger] s[j]).role == "tool"@,
    ensures
        tidied_from(s, i) == s.subrange(i, e) + tidied_from(s, e),
    decreases e - i,
{
    lemma_roles();
    if i < e {
        lemma_tidied_results(s, i + 1, e);
        assert(s.subrange(i, e) + tidied_from(s, e) =~= seq![s[i]] + (s.subrange(i + 1, e)
            + tidied_from(s, e)));
    } else {
        assert(s.subrange(i, e) + tidied_from(s, e) =~= tidied_from(s, e));
    }
}

/// Tidying does not part calls from their results.
pub proof fn lemma_tidying_keeps_pairs(s: Seq<MessageView>, i: int)
    requires
        0 <= i,
        paired_from(s, i),
    ensures
        paired_from(tidied_from(s, i), 0),
    decreases s.len() - i,
{
    lemma_roles();
    if i < s.len() {
        let r = tidied_from(s, i);
        if calling(s[i]) {
            let calls = s[i].tool_calls->0;
            let e = (i + 1 + calls.len()) as int;
            lemma_tidying_keeps_pairs(s, e);
            assert forall|j: int| i + 1 <= j < e implies (#[trigger] s[j]).role == "tool"@ by {
                assert(calls[j - i - 1] == calls[j - i - 1]);
            }
            lemma_tidied_results(s, i + 1, e);
            let results = s.subrange(i + 1, e);
            let rest = tidied_from(s, e);
            let head = seq![s[i]] + results;
            assert(r =~= head + rest);
            lemma_paired_prefix(head, rest, 0);
            assert(r[0] == s[i]);
            assert forall|k: int| #![trigger calls[k]] 0 <= k < calls.len() implies r[1 + k].role
                == "tool"@ && r[1 + k].tool_call_id == calls[k].id by {
                assert(r[1 + k] == s[i + 1 + k]);
            }
            assert(paired_from(r, (1 + calls.len()) as int));
        } else {
            lemma_tidying_keeps_pairs(s, i + 1);
            if !silent(s[i]) {
                let rest = tidied_from(s, i + 1);
                if r.len() == rest.len() {
                    assert(rest.len() > 0);
                    let tail = rest.skip(1);
                    assert(r =~= seq![r[0]] + tail);
                    assert(rest =~= seq![rest[0]] + tail);
                    if calling(rest[0]) {
                        let calls = rest[0].tool_calls->0;
                        assert(calling(r[0]) && r[0].tool_calls == rest[0].tool_calls);
                        assert forall|k: int| #![trigger calls[k]] 0 <= k < calls.len() implies r[1
                            + k].role == "tool"@ && r[1 + k].tool_call_id == calls[k].id by {
                            assert(r[1 + k] == rest[1 + k]);
                        }
                        lemma_paired_same_tail(rest, r, (1 + calls.len()) as int);
                    } else {
                        lemma_paired_same_tail(rest, r, 1);
                    }
                } else {
                    lemma_paired_prefix(seq![s[i]], rest, 0);
                    assert(r[0] == s[i]);
                }
            }
        }
    }
}

proof fn lemma_paired_same_tail(a: Seq<MessageView>, b: Seq<MessageView>, i: int)
    requires
        1 <= i,
        a.len() == b.len(),
        forall|j: int| 1 <= j < a.len() ==> a[j] == #[trigger] b[j],
        paired_from(a, i),
    ensures
        paired_from(b, i),
    decreases a.len() - i,
{
    if i < a.len() {
        assert(a[i] == b[i]);
        if calling(a[i]) {
            let calls = a[i].tool_calls->0;
            assert forall|k: int| #![trigger calls[k]] 0 <= k < calls.len() implies b[i + 1 + k].role
                == "tool"@ && b[i + 1 + k].tool_call_id == calls[k].id by {
                assert(a[i + 1 + k] == b[i + 1 + k]);
            }
            lemma_paired_same_tail(a, b, (i + 1 + calls.len()) as int);
        } else {
            lemma_paired_same_tail(a, b, i + 1);
        }
    }
}

/// Messages without what the model thought.
pub open spec fn without_reasoning(s: Seq<MessageView>) -> Seq<MessageView> {
    s.map_values(|m: MessageView| MessageView { reasoning_content: None, ..m })
}

impl LLMSession {
    /// Takes out what the model thought; tells whether there was any.
    pub fn strip_reasoning_content(messages: &mut Vec<Message>) -> (r: bool)
        ensures
            views(final(messages)@) == without_reasoning(views(old(messages)@)),
            r == exists|i: int| #![trigger views(old(messages)@)[i]]
                0 <= i < old(messages)@.len() && views(old(messages)@)[i].reasoning_content is Some,
    {
        let ghost s = views(messages@);
        let n: usize = messages.len();
        let mut changed: bool = false;
        let mut i: usize = 0;
        while i < n
            invariant
                i <= n == messages@.len(),
                s == views(old(messages)@),
                n == s.len(),
                n == old(messages)@.len(),
                forall|j: int| #![trigger messages@[j]]
                    0 <= j < i ==> messages@[j]@ == without_reasoning(s)[j],
                forall|j: int| #![trigger messages@[j]] i <= j < n ==> messages@[j]@ == s[j],
                changed == exists|j: int| #![trigger s[j]]
                    0 <= j < i && s[j].reasoning_content is Some,
            decreases n - i,
        {
            assert(messages@[i as int]@ == s[i as int]);
            if messages[i].reasoning_content.is_some() {
                changed = true;
                messages[i].reasoning_content = None;
                assert(s[i as int].reasoning_content is Some);
            }
            assert(messages@[i as int]@ =~= without_reasoning(s)[i as int]);
            i = i + 1;
        }
        assert(views(messages@) =~= without_reasoning(s));
        changed
    }
}

/// The messages that are no results of tools, from a message on.
pub open spec fn besides_results(s: Seq<MessageView>, i: int) -> Seq<MessageView>
    decreases s.len() - i,
{
    if i >= s.len() || i < 0 {
        Seq::empty()
    } else if s[i].role == "tool"@ {
        besides_results(s, i + 1)
    } else {
        seq![s[i]] + besides_results(s, i + 1)
    }
}

proof fn lemma_besides_results_of_sum(a: Seq<MessageView>, b: Seq<MessageView>, i: int)
    requires
        0 <= i <= a.len(),
    ensures
        besides_results(a + b, i) == besides_results(a, i) + besides_results(b, 0),
    decreases a.len() - i,
{
    let s = a + b;
    if i < a.len() {
        lemma_besides_results_of_sum(a, b, i + 1);
        assert(s[i] == a[i]);
        assert(besides_results(s, i) =~= besides_results(a, i) + besides_results(b, 0));
    } else {
        lemma_besides_results_from(s, b, i, 0);
        assert(besides_results(a, i) + besides_results(b, 0) =~= besides_results(b, 0));
    }
}

proof fn lemma_besides_results_from(s: Seq<MessageView>, b: Seq<MessageView>, i: int, j: int)
    requires
        0 <= i,
        0 <= j <= b.len(),
        s.len() - i == b.len() - j,
        forall|k: int| j <= k < b.len() ==> s[i + k - j] == #[trigger] b[k],
    ensures
        besides_results(s, i) == besides_results(b, j),
    decreases b.len() - j,
{
    if j < b.len() {
        assert(s[i + j - j] == b[j]);
        assert forall|k: int| j + 1 <= k < b.len() implies s[i + 1 + k - (j + 1)]
            == #[trigger] b[k] by {
            assert(s[i + k - j] == b[k]);
        }
        lemma_besides_results_from(s, b, i + 1, j + 1);
    }
}

proof fn lemma_results_besides(s: Seq<MessageView>, i: int)
    requires
        0 <= i,
        forall|k: int| i <= k < s.len() ==> (#[trigger] s[k]).role == "tool"@,
    ensures
        besides_results(s, i) == Seq::<MessageView>::empty(),
    decreases s.len() - i,
{
    if i < s.len() {
        lemma_results_besides(s, i + 1);
    }
}

proof fn lemma_results_skipped(s: Seq<MessageView>, i: int, e: int)
    requires
        0 <= i <= e <= s.len(),
        forall|k: int| i <= k < e ==> (#[trigger] s[k]).role == "tool"@,
    ensures
        besides_results(s, i) == besides_results(s, e),
    decreases e - i,
{
    if i < e {
        lemma_results_skipped(s, i + 1, e);
    }
}

/// The repair of tool calls touches results of tools alone: every other message stays, as it was and
/// in its order.
pub proof fn lemma_repair_keeps_the_rest(s: Seq<MessageView>, i: int)
    requires
        0 <= i,
    ensures
        besides_results(repaired_from(s, i), 0) == besides_results(s, i),
    decreases s.len() - i,
{
    lemma_roles();
    if i < s.len() {
        if calling(s[i]) {
            lemma_results_end(s, i + 1);
            let e = results_end(s, i + 1);
            let calls = s[i].tool_calls->0;
            let results = s.subrange(i + 1, e);
            let given = results_for(calls, results);
            let rest = repaired_from(s, e);
            lemma_repair_keeps_the_rest(s, e);
            assert forall|k: int| 0 <= k < given.len() implies (#[trigger] given[k]).role
                == "tool"@ by {
                lemma_result_named(results, calls[k].id, 0);
                assert forall|j: int| 0 <= j < results.len() implies (#[trigger] results[j]).role
                    == "tool"@ by {
                    assert(results[j] == s[i + 1 + j]);
                }
            }
            lemma_results_besides(given, 0);
            lemma_results_skipped(s, i + 1, e);
            let head = seq![s[i]];
            lemma_besides_results_of_sum(head + given, rest, 0);
            lemma_besides_results_of_sum(head, given, 0);
            assert(besides_results(head, 1) =~= Seq::<MessageView>::empty());
            assert(besides_results(head, 0) =~= head);
            assert(besides_results(repaired_from(s, i), 0) =~= besides_results(s, i));
        } else if s[i].role == "tool"@ {
            lemma_repair_keeps_the_rest(s, i + 1);
        } else {
            lemma_repair_keeps_the_rest(s, i + 1);
            let head = seq![s[i]];
            lemma_besides_results_of_sum(head, repaired_from(s, i + 1), 0);
            assert(besides_results(head, 1) =~= Seq::<MessageView>::empty());
            assert(besides_results(head, 0) =~= head);
        }
    } else {
        assert(besides_results(repaired_from(s, i), 0) =~= Seq::<MessageView>::empty());
    }
}

/// A call gets the result that names it, as it is; where none does, the one at its place, if that is
/// for no other call, with the text left as it is; and only else a text that says it is missing.
pub proof fn lemma_result_of_a_call(
    calls: Seq<ToolCallView>,
    results: Seq<MessageView>,
    k: int,
    j: int,
)
    requires
        0 <= k < calls.len(),
        0 <= j < results.len(),
    ensures
        ({
            let given = result_for(calls, results, k);
            &&& calls[k].id is Some && results[j].tool_call_id == calls[k].id && (forall|i: int|
                0 <= i < j ==> (#[trigger] results[i]).tool_call_id != calls[k].id) ==> given
                == results[j]
            &&& j == k && (forall|i: int|
                #![trigger results[i]]
                0 <= i < results.len() ==> calls[k].id is None || results[i].tool_call_id
                    != calls[k].id) && !names_call(calls, results[j].tool_call_id)
                ==> given.content == results[j].content && given.role == results[j].role
                && given.tool_call_id == calls[k].id
        }),
{
    lemma_result_named(results, calls[k].id, 0);
    lemma_first_named(results, calls[k].id, 0, j);
}

proof fn lemma_first_named(results: Seq<MessageView>, id: Option<Seq<char>>, from: int, j: int)
    requires
        0 <= from <= j < results.len(),
    ensures
        id is Some && results[j].tool_call_id == id && (forall|i: int|
            from <= i < j ==> (#[trigger] results[i]).tool_call_id != id) ==> result_named(
            results,
            id,
            from,
        ) == Some(j),
    decreases j - from,
{
    if from < j {
        lemma_first_named(results, id, from + 1, j);
    }
}

/// The messages that are no answers of the model, from a message on.
pub open spec fn besides_answers(s: Seq<MessageView>, i: int) -> Seq<MessageView>
    decreases s.len() - i,
{
    if i >= s.len() || i < 0 {
        Seq::empty()
    } else if s[i].role == "assistant"@ {
        besides_answers(s, i + 1)
    } else {
        seq![s[i]] + besides_answers(s, i + 1)
    }
}

/// All that the model said, from a message on.
pub open spec fn all_said(s: Seq<MessageView>, i: int) -> Seq<char>
    decreases s.len() - i,
{
    if i >= s.len() || i < 0 {
        Seq::empty()
    } else if s[i].role == "assistant"@ {
        text_or_empty(s[i].content) + all_said(s, i + 1)
    } else {
        all_said(s, i + 1)
    }
}

/// All that the model thought where it also said or called something, from a message on.
pub open spec fn all_thought(s: Seq<MessageView>, i: int) -> Seq<char>
    decreases s.len() - i,
{
    if i >= s.len() || i < 0 {
        Seq::empty()
    } else if s[i].role == "assistant"@ && !silent(s[i]) {
        text_or_empty(s[i].reasoning_content) + all_thought(s, i + 1)
    } else {
        all_thought(s, i + 1)
    }
}

/// All calls of the model, from a message on.
pub open spec fn all_called(s: Seq<MessageView>, i: int) -> Seq<ToolCallView>
    decreases s.len() - i,
{
    if i >= s.len() || i < 0 {
        Seq::empty()
    } else if calling(s[i]) {
        s[i].tool_calls->0 + all_called(s, i + 1)
    } else {
        all_called(s, i + 1)
    }
}

spec fn same_from(s: Seq<MessageView>, i: int, t: Seq<MessageView>, j: int) -> bool {
    &&& 0 <= i
    &&& 0 <= j <= t.len()
    &&& s.len() - i == t.len() - j
    &&& forall|k: int| j <= k < t.len() ==> s[i + k - j] == #[trigger] t[k]
}

proof fn lemma_same_from(s: Seq<MessageView>, i: int, t: Seq<MessageView>, j: int)
    requires
        same_from(s, i, t, j),
    ensures
        besides_answers(s, i) == besides_answers(t, j),
        all_said(s, i) == all_said(t, j),
        all_thought(s, i) == all_thought(t, j),
        all_called(s, i) == all_called(t, j),
    decreases t.len() - j,
{
    if j < t.len() {
        assert(s[i + j - j] == t[j]);
        assert forall|k: int| j + 1 <= k < t.len() implies s[i + 1 + k - (j + 1)]
            == #[trigger] t[k] by {
            assert(s[i + k - j] == t[k]);
        }
        lemma_same_from(s, i + 1, t, j + 1);
    }
}

/// Tidying loses no word and no call: all that the model said and called is still there, in the same
/// order, and so is what it thought with an answer; every other message stays as it was.
pub proof fn lemma_tidying_loses_nothing(s: Seq<MessageView>, i: int)
    requires
        0 <= i,
    ensures
        besides_answers(tidied_from(s, i), 0) == besides_answers(s, i),
        all_said(tidied_from(s, i), 0) == all_said(s, i),
        all_thought(tidied_from(s, i), 0) == all_thought(s, i),
        all_called(tidied_from(s, i), 0) == all_called(s, i),
    decreases s.len() - i,
{
    lemma_roles();
    if i < s.len() {
        lemma_tidying_loses_nothing(s, i + 1);
        let rest = tidied_from(s, i + 1);
        let r = tidied_from(s, i);
        let m = s[i];
        let none = Seq::<char>::empty();
        if silent(m) {
            assert(text_or_empty(m.content) =~= none);
            assert(none + all_said(s, i + 1) =~= all_said(s, i + 1));
        } else if rest.len() > 0 && m.role == "assistant"@ && !m.calls_tools() && rest[0].role
            == "assistant"@ {
            let whole = joined_answers(m, rest[0]);
            assert(r == rest.update(0, whole));
            assert forall|k: int| 1 <= k < rest.len() implies r[1 + k - 1] == #[trigger] rest[k] by {}
            lemma_same_from(r, 1, rest, 1);
            assert(r[0] == whole);
            lemma_tidied(s, i + 1);
            assert(!silent(rest[0]));
            let (a, b) = (text_or_empty(m.content), text_or_empty(rest[0].content));
            assert(text_or_empty(whole.content) =~= a + b);
            let (c, d) = (
                text_or_empty(m.reasoning_content),
                text_or_empty(rest[0].reasoning_content),
            );
            assert(text_or_empty(whole.reasoning_content) =~= c + d);
            assert(!silent(whole));
            assert(a + b + all_said(rest, 1) =~= a + (b + all_said(rest, 1)));
            assert(c + d + all_thought(rest, 1) =~= c + (d + all_thought(rest, 1)));
            assert(calling(whole) == calling(rest[0]));
        } else {
            assert(r == seq![m] + rest);
            assert forall|k: int| 0 <= k < rest.len() implies r[1 + k - 0] == #[trigger] rest[k] by {}
            lemma_same_from(r, 1, rest, 0);
            assert(r[0] == m);
        }
    }
}

/// Taking out what the model thought changes nothing else.
pub proof fn lemma_only_thoughts_are_taken_out(s: Seq<MessageView>, i: int)
    requires
        0 <= i < s.len(),
    ensures
        without_reasoning(s).len() == s.len(),
        without_reasoning(s)[i].reasoning_content is None,
        without_reasoning(s)[i].role == s[i].role,
        without_reasoning(s)[i].content == s[i].content,
        without_reasoning(s)[i].tool_calls == s[i].tool_calls,
        without_reasoning(s)[i].tool_call_id == s[i].tool_call_id,
{
}

} // verus!
