//! What holds of a session across its steps.

use crate::error::{ErrorCode, ErrorView};
use crate::json::JsonView;
use crate::llm::assembly::{
    acceptable, captured, compiled, compiled_node, configured, gave_something, has_news,
    instructions_of, looks, material_for, usable, with_material,
};
use crate::llm::context_budget::{
    available, calibrated, lemma_budget_is_a_share, output_reserve, safety_reserve, source_of,
};
use crate::llm::context_snapshot::{
    prepared, rendered, sources_of, with_reference, ContextSnapshotPlacement, SnapshotView,
};
use crate::llm::followup::{continuation_text, lemma_followup_changes};
use crate::llm::handle::HandleView;
use crate::llm::provider::{
    material_of, material_on, retry_budget_of, whole_answer, LlmView, PendingView, Progress,
    SendingView,
};
use crate::llm::repair::{
    lemma_rules_differ, lemma_too_long_rule, repaired, too_long, UNSUPPORTED_REASONING_CONTENT,
};
use crate::llm::rounds::leading_instructions;
use crate::llm::sanitize::{
    calling, lemma_repair_pairs, lemma_tidied, lemma_tidying_keeps_pairs, paired_from,
    repaired_from, silent, tidied_from, tidy, without_reasoning,
};
use crate::llm::session::{answer, whole_calls, whole_output, whole_texts};
use crate::llm::stream_turn::{call_events, OutputView};
use crate::llm::token_estimate::{
    fingerprint, lemma_baseline_stands_for_its_request, observed_factor, request_tokens,
    BaselineView,
};
use crate::llm::tool::descriptions;
use crate::llm::tree::{lemma_path, lemma_place, path_places, place_of, NodeView, TreeView};
use crate::llm::trim::{budget_error, has_reference, Trimming};
use crate::llm::trim_laws::{
    last_user_message, lemma_leading_instructions, lemma_report_tells_the_truth, lemma_trimmed_fits,
    lemma_trimming_keeps_last_user, lemma_when_trimming_succeeds,
};
use crate::llm::turn::{context_of_turn, heard, request_of_turn};
use crate::llm::types::{
    lemma_roles, ChoiceView, MessageView, RequestPreflight, RequestView, SessionEventView, Usage,
};
use crate::model::text_or_empty;
use crate::orchestrator::context::{ContextView, TaskContext, TurnView};
use crate::orchestrator::orchestrator::{assembled, offered, temperature_for};
use crate::text::decimal;
use vstd::prelude::*;

verus! {

/// A request is sent at most twice, under one number: after a first attempt the turn is over or
/// there is a second one, and after a second one it is over.
pub proof fn lemma_sent_at_most_twice(
    v: LlmView,
    req: RequestView,
    p: PendingView,
    result: Result<OutputView, ErrorView>,
    cancelled: bool,
)
    ensures
        v.begin(req, cancelled).next is Send ==> v.begin(req, cancelled).next->Send_0.attempt == 1,
        p.attempt == 1 ==> match v.after(p, result, cancelled).next {
            SendingView::Send(q) => q.attempt == 2 && q.request_id == p.request_id,
            SendingView::Done(_) => true,
        },
        p.attempt == 2 ==> v.after(p, result, cancelled).next is Done,
{
}

/// An answer is never sent for again; a refusal that no rule covers is handed on.
pub proof fn lemma_when_not_sent_again(
    v: LlmView,
    p: PendingView,
    result: Result<OutputView, ErrorView>,
    cancelled: bool,
)
    ensures
        result is Ok ==> v.after(p, result, cancelled).next == SendingView::Done(result),
        result is Err && p.attempt == 1 && repaired(p.request, result->Err_0) is None ==> v.after(
            p,
            result,
            cancelled,
        ) == (Progress { session: v, events: Seq::empty(), next: SendingView::Done(result) }),
{
}

/// A request that the service found too long is sent again only in a form that fits the smaller
/// budget; and where it is too long even then, the turn fails for want of room.
pub proof fn lemma_overflow_retry(v: LlmView, p: PendingView, e: ErrorView)
    requires
        p.attempt == 1,
        p.request.messages.len() <= usize::MAX,
        too_long(e),
    ensures
        match v.after(p, Err(e), false).next {
            SendingView::Send(q) => {
                &&& (Trimming { request: q.request, ..v.retry_trimming(p) }).fits()
                &&& q.retry_budget == Some(retry_budget_of(v.config.context_window_tokens, p))
                &&& forall|w: LlmView, f: ErrorView| #![trigger w.after(q, Err(f), false)]
                    too_long(f) ==> w.after(q, Err(f), false).next == SendingView::Done(
                        Err(
                            budget_error(q.request, q.retry_budget->0, q.factor, q.baseline),
                        ),
                    )
            },
            SendingView::Done(r) => r is Err && r->Err_0.code == ErrorCode::ContextBudgetExceeded,
        },
{
    lemma_too_long_rule(p.request, e);
    lemma_rules_differ();
    let t = v.retry_trimming(p);
    lemma_trimmed_fits(t, true);
    assert((Trimming { request: p.request, ..t }) == t);
}

/// A service that refused what the model thought is never sent that again.
pub proof fn lemma_reasoning_refusal_remembered(v: LlmView, p: PendingView, e: ErrorView)
    requires
        p.attempt == 1,
        repaired(p.request, e) is Some,
        repaired(p.request, e)->0.rule == UNSUPPORTED_REASONING_CONTENT@,
    ensures
        v.after(p, Err(e), false).session.strips_reasoning,
        forall|s: Seq<MessageView>, k: int| #![trigger acceptable(s, true)[k]]
            0 <= k < acceptable(s, true).len() ==> acceptable(s, true)[k].reasoning_content is None,
{
    lemma_rules_differ();
}

/// Steps of a request change neither the conversation nor its material.
pub proof fn lemma_sending_keeps_conversation(
    v: LlmView,
    req: RequestView,
    p: PendingView,
    result: Result<OutputView, ErrorView>,
    cancelled: bool,
)
    ensures
        v.begin(req, cancelled).session.handle == v.handle,
        v.after(p, result, cancelled).session.handle == v.handle,
        v.after(p, result, cancelled).session.config == v.config,
{
}

/// Stripping thoughts changes neither calls nor results.
proof fn lemma_paired_without_reasoning(s: Seq<MessageView>, i: int)
    requires
        0 <= i,
        paired_from(s, i),
    ensures
        paired_from(without_reasoning(s), i),
    decreases s.len() - i,
{
    let w = without_reasoning(s);
    if i < s.len() {
        assert(w[i].role == s[i].role && w[i].tool_calls == s[i].tool_calls);
        if calling(s[i]) {
            let calls = s[i].tool_calls->0;
            let e = (i + 1 + calls.len()) as int;
            lemma_paired_without_reasoning(s, e);
            assert forall|k: int| #![trigger calls[k]] 0 <= k < calls.len() implies w[i + 1 + k].role
                == "tool"@ && w[i + 1 + k].tool_call_id == calls[k].id by {
                assert(w[i + 1 + k].role == s[i + 1 + k].role);
            }
        } else {
            lemma_paired_without_reasoning(s, i + 1);
        }
    }
}

/// In what is sent every call has its result, no answer is silent, and no two answers follow each
/// other unless the first calls tools.
pub proof fn lemma_sent_messages_are_acceptable(s: Seq<MessageView>, strips: bool)
    ensures
        paired_from(acceptable(s, strips), 0),
        tidy(acceptable(s, strips)),
{
    let r = repaired_from(s, 0);
    lemma_repair_pairs(s, 0);
    lemma_tidying_keeps_pairs(r, 0);
    lemma_tidied(r, 0);
    let t = tidied_from(r, 0);
    if strips {
        lemma_paired_without_reasoning(t, 0);
        let w = without_reasoning(t);
        assert forall|i: int| #![trigger w[i]] 0 <= i < w.len() implies !silent(w[i]) by {
            assert(!silent(t[i]));
        }
        assert forall|i: int, j: int| #![trigger w[i], w[j]]
            0 <= i && j == i + 1 && j < w.len() && w[i].role == "assistant"@ && w[j].role
                == "assistant"@ implies w[i].calls_tools() by {
            assert(t[i].role == w[i].role && t[j].role == w[j].role);
        }
    }
}

proof fn lemma_path_in_longer(nodes: Seq<NodeView>, n: NodeView, j: int)
    requires
        0 <= j < nodes.len(),
        forall|i: int| #![trigger nodes[i]] 0 <= i < nodes.len() ==> nodes[i].parent != Some(n.id),
    ensures
        path_places(nodes.push(n), j) == path_places(nodes, j),
    decreases j,
{
    let longer = nodes.push(n);
    assert(longer[j] == nodes[j]);
    assert(longer.drop_last() =~= nodes);
    match nodes[j].parent {
        Some(p) => {
            assert(place_of(longer, p) == place_of(nodes, p));
            match place_of(nodes, p) {
                Some(i) if 0 <= i < j => {
                    lemma_path_in_longer(nodes, n, i);
                },
                _ => {},
            }
        },
        None => {},
    }
}

/// A new message comes at the end of the branch that leads to the head.
pub proof fn lemma_branch_grows(t: TreeView, m: MessageView, turn_id: u64, timestamp: Seq<char>)
    requires
        t.wf(),
        t.next_id < u64::MAX,
    ensures
        t.appended(m, turn_id, timestamp).branch() == t.branch().push(
            NodeView { id: t.next_id, parent: t.head, turn_id, timestamp, message: m },
        ),
        t.appended(m, turn_id, timestamp).head_path() == t.head_path().push(t.next_id),
        forall|k: int| #![trigger t.branch()[k]]
            0 <= k < t.branch().len() ==> t.branch()[k].id != t.next_id,
{
    let n = NodeView { id: t.next_id, parent: t.head, turn_id, timestamp, message: m };
    let u = t.appended(m, turn_id, timestamp);
    let last = t.nodes.len() as int;
    assert(u.nodes == t.nodes.push(n));
    assert(u.nodes.drop_last() =~= t.nodes);
    assert(place_of(u.nodes, t.next_id) == Some(last));
    assert forall|i: int| #![trigger t.nodes[i]] 0 <= i < t.nodes.len() implies t.nodes[i].parent
        != Some(n.id) by {
        if t.nodes[i].parent is Some {
            let j = choose|j: int| #![trigger t.nodes[j]]
                0 <= j < i && t.nodes[j].id == t.nodes[i].parent->0;
            assert(t.nodes[j].id < t.next_id);
        }
    }
    match t.head {
        Some(h) => {
            lemma_place(t.nodes, h);
            let j = place_of(t.nodes, h)->0;
            assert(t.nodes[j].id < t.next_id);
            assert(place_of(u.nodes, h) == Some(j));
            lemma_path_in_longer(t.nodes, n, j);
            lemma_path(t.nodes, j);
            assert(u.head_places() == t.head_places().push(last));
            assert forall|k: int| #![trigger t.branch()[k]] 0 <= k < t.branch().len() implies
                t.branch()[k].id != t.next_id by {
                let at = t.head_places()[k];
                assert(path_places(t.nodes, j)[k] == at);
                assert(t.nodes[at].id < t.next_id);
            }
            assert forall|k: int| 0 <= k < t.branch().len() implies #[trigger] u.branch()[k]
                == t.branch()[k] by {
                let at = t.head_places()[k];
                assert(path_places(t.nodes, j)[k] == at);
                assert(u.head_places()[k] == at);
                assert(u.nodes[at] == t.nodes[at]);
            }
        },
        None => {
            assert(u.head_places() == seq![last]);
            assert(t.head_places() == Seq::<int>::empty());
        },
    }
    assert(u.branch() =~= t.branch().push(n));
    assert(u.head_path() =~= t.head_path().push(t.next_id));
}

proof fn lemma_material_for(snapshots: Seq<SnapshotView>, id: u64, placement: ContextSnapshotPlacement)
    ensures
        match material_for(snapshots, id, placement) {
            Some(i) => 0 <= i < snapshots.len() && snapshots[i].owner_node_id == id,
            None => true,
        },
    decreases snapshots.len(),
{
    if snapshots.len() > 0 {
        lemma_material_for(snapshots.drop_last(), id, placement);
    }
}

/// Material of other messages does not show: what goes to the model for a branch depends on the
/// material of its own messages alone, so that nothing leaks from one branch into another.
pub proof fn lemma_other_branches_do_not_show(
    branch: Seq<NodeView>,
    snapshots: Seq<SnapshotView>,
    s: SnapshotView,
)
    requires
        forall|k: int| #![trigger branch[k]]
            0 <= k < branch.len() ==> branch[k].id != s.owner_node_id,
    ensures
        compiled(branch, snapshots.push(s)) == compiled(branch, snapshots),
    decreases branch.len(),
{
    if branch.len() > 0 {
        let shorter = branch.drop_last();
        assert forall|k: int| #![trigger shorter[k]] 0 <= k < shorter.len() implies shorter[k].id
            != s.owner_node_id by {
            assert(shorter[k] == branch[k]);
        }
        lemma_other_branches_do_not_show(shorter, snapshots, s);
        let n = branch.last();
        assert(branch[branch.len() - 1].id != s.owner_node_id);
        assert(snapshots.push(s).drop_last() =~= snapshots);
        lemma_material_for(snapshots, n.id, ContextSnapshotPlacement::UserMessage);
        lemma_material_for(snapshots, n.id, ContextSnapshotPlacement::AfterNode);
    }
}

/// A request begins with the one before it: what the user says next only adds messages at the end,
/// so that what the service remembers of the beginning stays good.
pub proof fn lemma_requests_grow(
    v: LlmView,
    message: Seq<char>,
    references: Seq<Seq<char>>,
    m: MessageView,
    timestamp: Seq<char>,
)
    requires
        v.handle.wf(),
        v.handle.tree.next_id < u64::MAX,
    ensures
        v.request().messages.is_prefix_of(
            v.hearing(message, references, timestamp).request().messages,
        ),
        v.request().messages.is_prefix_of(v.saying(m, timestamp).request().messages),
        v.saying(m, timestamp).request().messages == v.request().messages.push(m),
        v.hearing(message, references, timestamp).request().messages
            == v.request().messages.push(
            if has_news(v.handle, references) {
                with_material(
                    MessageView::plain("user"@, message),
                    prepared(references).bound_to(v.handle.tree.next_id),
                )
            } else {
                MessageView::plain("user"@, message)
            },
        ),
{
    let h = v.handle;
    let t = h.tree;
    let s = h.context_snapshots;
    let id = t.next_id;
    let front = h.system_messages;
    // What the model says.
    let spoken = NodeView { id, parent: t.head, turn_id: v.turn_id, timestamp, message: m };
    lemma_branch_grows(t, m, v.turn_id, timestamp);
    let b = t.branch().push(spoken);
    assert(b.drop_last() =~= t.branch());
    lemma_no_material(h, id);
    assert(v.saying(m, timestamp).request().messages =~= v.request().messages.push(m));
    // What the user says.
    let plain = MessageView::plain("user"@, message);
    let heard = NodeView { id, parent: t.head, turn_id: v.turn_id, timestamp, message: plain };
    lemma_branch_grows(t, plain, v.turn_id, timestamp);
    let c = t.branch().push(heard);
    assert(c.drop_last() =~= t.branch());
    let x = prepared(references).bound_to(id);
    lemma_other_branches_do_not_show(t.branch(), s, x);
    assert(s.push(x).drop_last() =~= s);
    let next = v.hearing(message, references, timestamp);
    if has_news(h, references) {
        assert(next.handle.context_snapshots == s.push(x));
        assert(material_for(s.push(x), id, ContextSnapshotPlacement::UserMessage) == Some(
            s.len() as int,
        ));
        assert(material_for(s.push(x), id, ContextSnapshotPlacement::AfterNode) is None);
        assert(compiled_node(heard, s.push(x)) =~= seq![with_material(plain, x)]);
    } else {
        assert(compiled_node(heard, s) =~= seq![plain]);
    }
    assert(next.request().messages =~= v.request().messages.push(
        if has_news(h, references) {
            with_material(plain, x)
        } else {
            plain
        },
    ));
}

/// A number that names no message has no material.
proof fn lemma_no_material(h: HandleView, id: u64)
    requires
        h.wf(),
        id == h.tree.next_id,
        id < u64::MAX,
    ensures
        material_of(h.context_snapshots, id) is None,
        material_for(h.context_snapshots, id, ContextSnapshotPlacement::UserMessage) is None,
        material_for(h.context_snapshots, id, ContextSnapshotPlacement::AfterNode) is None,
{
    let s = h.context_snapshots;
    lemma_place(h.tree.nodes, id);
    assert(!h.tree.has(id)) by {
        if h.tree.has(id) {
            let j = place_of(h.tree.nodes, id)->0;
            assert(h.tree.nodes[j].id < h.tree.next_id);
        }
    }
    lemma_material_for(s, id, ContextSnapshotPlacement::UserMessage);
    lemma_material_for(s, id, ContextSnapshotPlacement::AfterNode);
    lemma_material_of(s, id);
}

proof fn lemma_material_of(snapshots: Seq<SnapshotView>, id: u64)
    ensures
        match material_of(snapshots, id) {
            Some(i) => 0 <= i < snapshots.len() && snapshots[i].owner_node_id == id,
            None => true,
        },
    decreases snapshots.len(),
{
    if snapshots.len() > 0 {
        lemma_material_of(snapshots.drop_last(), id);
    }
}

proof fn lemma_same_material(a: Seq<Seq<char>>, b: Seq<Seq<char>>, s: SnapshotView)
    requires
        prepared(a).same_as(s),
    ensures
        prepared(b).same_as(s) <==> a == b,
{
    if prepared(b).same_as(s) {
        assert(sources_of(a).len() == sources_of(b).len());
        assert forall|i: int| 0 <= i < a.len() implies a[i] == b[i] by {
            assert(sources_of(a)[i] == sources_of(b)[i]);
        }
        assert(a =~= b);
    }
}

/// After a turn with given references, the same references are no news, and any others are.
proof fn lemma_references_recorded(
    h: HandleView,
    message: Seq<char>,
    references: Seq<Seq<char>>,
    others: Seq<Seq<char>>,
    turn_id: u64,
    timestamp: Seq<char>,
)
    requires
        h.wf(),
        h.tree.next_id < u64::MAX,
    ensures
        has_news(captured(h, message, references, turn_id, timestamp), others) <==> others
            != references,
{
    let t = h.tree;
    let s = h.context_snapshots;
    let id = t.next_id;
    let plain = MessageView::plain("user"@, message);
    let asked = captured(h, message, references, turn_id, timestamp);
    lemma_branch_grows(t, plain, turn_id, timestamp);
    lemma_no_material(h, id);
    let path = t.head_path().push(id);
    assert(path.drop_last() =~= t.head_path());
    let x = prepared(references).bound_to(id);
    let kept = asked.context_snapshots;
    if has_news(h, references) {
        assert(kept == s.push(x));
        assert(material_of(kept, id) == Some(s.len() as int));
        assert(material_on(path, kept) == Some(s.len() as int));
        assert(kept[s.len() as int] == x);
        lemma_same_material(references, others, x);
    } else {
        assert(material_on(path, kept) == material_on(t.head_path(), s));
        match material_on(t.head_path(), s) {
            Some(i) => {
                lemma_same_material(references, others, s[i]);
            },
            None => {
                assert(references =~= Seq::<Seq<char>>::empty());
                if others.len() == 0 {
                    assert(others =~= references);
                }
            },
        }
    }
}

/// References are recorded where they change, and only there: after a turn with given references,
/// and after the answer to it, the same references are no news, and any others are.
pub proof fn lemma_references_recorded_once(
    h: HandleView,
    message: Seq<char>,
    references: Seq<Seq<char>>,
    others: Seq<Seq<char>>,
    m: MessageView,
    turn_id: u64,
    timestamp: Seq<char>,
)
    requires
        h.wf(),
        h.tree.next_id < u64::MAX - 1,
    ensures
        ({
            let asked = captured(h, message, references, turn_id, timestamp);
            let answered = HandleView {
                tree: asked.tree.appended(m, turn_id, timestamp),
                ..asked
            };
            &&& has_news(asked, others) <==> others != references
            &&& has_news(answered, others) <==> others != references
        }),
{
    let t = h.tree;
    let s = h.context_snapshots;
    let id = t.next_id;
    let plain = MessageView::plain("user"@, message);
    let asked = captured(h, message, references, turn_id, timestamp);
    let answered = HandleView { tree: asked.tree.appended(m, turn_id, timestamp), ..asked };
    lemma_branch_grows(t, plain, turn_id, timestamp);
    lemma_no_material(h, id);
    let path = t.head_path().push(id);
    assert(path.drop_last() =~= t.head_path());
    let kept = asked.context_snapshots;
    lemma_appended_valid(t, plain, turn_id, timestamp);
    let second = id + 1;
    let longer = path.push(second as u64);
    assert(longer.drop_last() =~= path);
    lemma_branch_grows(asked.tree, m, turn_id, timestamp);
    assert(answered.tree.head_path() == longer);
    assert(asked.wf()) by {
        assert forall|i: int| #![trigger kept[i]] 0 <= i < kept.len() implies asked.tree.has(
            kept[i].owner_node_id,
        ) by {
            let owner = kept[i].owner_node_id;
            lemma_place(t.nodes, owner);
            lemma_place(asked.tree.nodes, owner);
            if i < s.len() {
                assert(kept[i] == s[i]);
                let j = place_of(t.nodes, owner)->0;
                assert(asked.tree.nodes[j] == t.nodes[j]);
            } else {
                assert(asked.tree.nodes[t.nodes.len() as int].id == id);
            }
        }
    }
    lemma_no_material(asked, second as u64);
    assert(material_on(longer, kept) == material_on(path, kept));
    lemma_references_recorded(h, message, references, others, turn_id, timestamp);
    assert(asked.tree.head_path() == path);
}

/// A conversation stays valid when it grows.
pub proof fn lemma_appended_valid(t: TreeView, m: MessageView, turn_id: u64, timestamp: Seq<char>)
    requires
        t.wf(),
        t.next_id < u64::MAX,
    ensures
        t.appended(m, turn_id, timestamp).wf(),
{
    let u = t.appended(m, turn_id, timestamp);
    let last = t.nodes.len() as int;
    assert(u.nodes[last].id == t.next_id);
    lemma_place(u.nodes, t.next_id);
    assert forall|i: int, j: int| #![trigger u.nodes[i], u.nodes[j]]
        0 <= i < j < u.nodes.len() implies u.nodes[i].id != u.nodes[j].id by {
        assert(u.nodes[i] == t.nodes[i]);
        if j < last {
            assert(u.nodes[j] == t.nodes[j]);
        }
    }
    assert forall|i: int| #![trigger u.nodes[i]] 0 <= i < u.nodes.len() implies u.nodes[i].id
        < u.next_id || u.next_id == u64::MAX by {
        if i < last {
            assert(u.nodes[i] == t.nodes[i]);
        }
    }
    assert forall|i: int| #![trigger u.nodes[i]] 0 <= i < u.nodes.len() implies {
        ||| u.nodes[i].parent is None
        ||| exists|j: int| #![trigger u.nodes[j]]
            0 <= j < i && u.nodes[j].id == u.nodes[i].parent->0
    } by {
        if i < last {
            assert(u.nodes[i] == t.nodes[i]);
            if t.nodes[i].parent is Some {
                let j = choose|j: int| #![trigger t.nodes[j]]
                    0 <= j < i && t.nodes[j].id == t.nodes[i].parent->0;
                assert(u.nodes[j] == t.nodes[j]);
            }
        } else if t.head is Some {
            lemma_place(t.nodes, t.head->0);
            let j = place_of(t.nodes, t.head->0)->0;
            assert(u.nodes[j] == t.nodes[j]);
        }
    }
}

/// A look at the next request looks at the very request that would be sent: what is put together
/// for a message that was not taken in yet is what is put together once it is.
pub proof fn lemma_look_is_true(
    v: LlmView,
    message: Seq<char>,
    turn: TurnView,
    timestamp: Seq<char>,
)
    requires
        v.handle.wf(),
        v.handle.tree.next_id < u64::MAX,
    ensures
        configured(v.hearing(message, turn.context_messages, timestamp).request(), turn)
            == configured(
            v.request().with_messages(
                v.request().messages.push(
                    if has_news(v.handle, turn.context_messages) {
                        with_material(
                            MessageView::plain("user"@, message),
                            prepared(turn.context_messages).bound_to(v.handle.tree.next_id),
                        )
                    } else {
                        MessageView::plain("user"@, message)
                    },
                ),
            ),
            turn,
        ),
{
    lemma_requests_grow(
        v,
        message,
        turn.context_messages,
        MessageView::plain("user"@, message),
        timestamp,
    );
    let a = v.hearing(message, turn.context_messages, timestamp).request();
    let b = v.request().with_messages(a.messages);
    assert(a =~= b);
}

/// References do not become instructions: the configuration of a turn puts its instructions, and
/// nothing of its references, behind the instructions at the front.
pub proof fn lemma_references_are_no_instructions(
    r: RequestView,
    turn: TurnView,
    references: Seq<Seq<char>>,
)
    ensures
        configured(r, turn) == configured(r, TurnView { context_messages: references, ..turn }),
        configured(r, turn).messages.len() == r.messages.len() + turn.instruction_messages.len(),
        leading_instructions(r.messages) <= r.messages.len(),
        forall|i: int| #![trigger configured(r, turn).messages[i]]
            leading_instructions(r.messages) <= i < leading_instructions(r.messages)
                + turn.instruction_messages.len() ==> configured(r, turn).messages[i]
                == MessageView::plain(
                "system"@,
                turn.instruction_messages[i - leading_instructions(r.messages)],
            ),
{
    lemma_leading_instructions(r.messages);
    let k = leading_instructions(r.messages);
    let all = r.messages.take(k) + instructions_of(turn) + r.messages.skip(k);
    assert(configured(r, turn).messages == all);
    assert forall|i: int| #![trigger configured(r, turn).messages[i]] k <= i < k
        + turn.instruction_messages.len() implies configured(r, turn).messages[i]
        == MessageView::plain("system"@, turn.instruction_messages[i - k]) by {
        assert(all[i] == instructions_of(turn)[i - k]);
    }
}

/// Descriptions of tools have three states: none leaves those of the request in place, an empty
/// list forbids all tools, another list replaces them.
pub proof fn lemma_tools_of_a_turn(r: RequestView, turn: TurnView)
    ensures
        turn.tool_schemas is None ==> configured(r, turn).tools == r.tools,
        turn.tool_schemas is Some ==> configured(r, turn).tools == turn.tool_schemas,
{
}

proof fn lemma_no_piece(
    snapshots: Seq<SnapshotView>,
    id: u64,
    placement: ContextSnapshotPlacement,
)
    ensures
        material_for(snapshots, id, placement) is None <==> forall|i: int|
            #![trigger snapshots[i]]
            0 <= i < snapshots.len() ==> !(snapshots[i].owner_node_id == id
                && snapshots[i].placement == placement),
    decreases snapshots.len(),
{
    if snapshots.len() > 0 {
        let earlier = snapshots.drop_last();
        lemma_no_piece(earlier, id, placement);
        if material_for(snapshots, id, placement) is None {
            assert forall|i: int| #![trigger snapshots[i]] 0 <= i < snapshots.len() implies !(
            snapshots[i].owner_node_id == id && snapshots[i].placement == placement) by {
                if i < earlier.len() {
                    assert(earlier[i] == snapshots[i]);
                }
            }
        } else if !(snapshots.last().owner_node_id == id && snapshots.last().placement
            == placement) {
            let i = choose|i: int| #![trigger earlier[i]]
                0 <= i < earlier.len() && earlier[i].owner_node_id == id && earlier[i].placement
                    == placement;
            assert(snapshots[i] == earlier[i]);
        }
    }
}

/// Stored material is taken over where its message exists and there is no other piece for the same
/// use of that message; nothing else is taken over, and where all of it can be used all of it is.
pub proof fn lemma_stored_material(tree: TreeView, snapshots: Seq<SnapshotView>)
    ensures
        ({
            let kept = usable(tree, snapshots);
            &&& forall|i: int| #![trigger kept[i]]
                0 <= i < kept.len() ==> tree.has(kept[i].owner_node_id) && snapshots.contains(
                    kept[i],
                )
            &&& forall|i: int, j: int| #![trigger kept[i], kept[j]]
                0 <= i < j < kept.len() ==> !(kept[i].owner_node_id == kept[j].owner_node_id
                    && kept[i].placement == kept[j].placement)
            &&& usable(tree, kept) == kept
        }),
    decreases snapshots.len(),
{
    if snapshots.len() > 0 {
        let earlier = snapshots.drop_last();
        lemma_stored_material(tree, earlier);
        let before = usable(tree, earlier);
        let kept = usable(tree, snapshots);
        let s = snapshots.last();
        lemma_no_piece(before, s.owner_node_id, s.placement);
        assert forall|i: int| #![trigger kept[i]] 0 <= i < kept.len() implies tree.has(
            kept[i].owner_node_id,
        ) && snapshots.contains(kept[i]) by {
            if i < before.len() {
                assert(kept[i] == before[i]);
                let j = choose|j: int| 0 <= j < earlier.len() && earlier[j] == before[i];
                assert(snapshots[j] == kept[i]);
            } else {
                assert(snapshots[snapshots.len() - 1] == kept[i]);
            }
        }
        assert forall|i: int, j: int| #![trigger kept[i], kept[j]] 0 <= i < j < kept.len() implies !(
        kept[i].owner_node_id == kept[j].owner_node_id && kept[i].placement == kept[j].placement) by {
            assert(kept[i] == before[i]);
            if j < before.len() {
                assert(kept[j] == before[j]);
            }
        }
        if kept.len() > before.len() {
            assert(kept.drop_last() =~= before);
        }
    }
}

/// A turn that brings its own context is assembled from that one, whatever was told before: what is
/// recorded with it, its instructions, parameters and tools are those that the context stands for. A
/// context that is told later takes the place of it in the requests behind that, and leaves what was
/// recorded as it is.
pub proof fn lemma_turn_follows_its_own_context(
    v: LlmView,
    before: ContextView,
    own: ContextView,
    later: ContextView,
    tools: Seq<(Seq<char>, JsonView)>,
    allowed: Option<Seq<Seq<char>>>,
    message: Seq<char>,
    timestamp: Seq<char>,
    others: Seq<Seq<char>>,
)
    requires
        v.handle.wf(),
        v.handle.tree.next_id < u64::MAX,
    ensures
        ({
            let turn = assembled(own, tools, allowed);
            let (taken, result) = heard(v.told(before).told(own), message, Ok(turn), timestamp);
            let request = request_of_turn(
                taken,
                None,
                assembled(taken.handle.context, tools, allowed),
                Seq::empty(),
                0,
                false,
            );
            let next = taken.told(later);
            let k = leading_instructions(
                acceptable(taken.request().messages, taken.strips_reasoning),
            );
            &&& result == Ok::<u64, ErrorView>(v.handle.tree.next_id)
            &&& taken.handle.context == own
            &&& taken == heard(v.told(own), message, Ok(turn), timestamp).0
            &&& has_news(taken.handle, others) <==> others != own.references()
            &&& request.temperature == match temperature_for(own.task_type) {
                Some(t) => Some(t),
                None => v.handle.request.temperature,
            }
            &&& request.tools == offered(tools, allowed)
            &&& request.messages.subrange(k, k + own.orders().len()) == own.orders().map_values(
                |t: Seq<char>| MessageView::plain("system"@, t),
            )
            &&& assembled(next.handle.context, tools, allowed) == assembled(later, tools, allowed)
            &&& next.request() == taken.request()
            &&& next.handle.context_snapshots == taken.handle.context_snapshots
        }),
{
    let turn = assembled(own, tools, allowed);
    let w = v.told(before).told(own);
    assert(w == v.told(own));
    let taken = w.hearing(message, own.references(), timestamp);
    assert(heard(w, message, Ok(turn), timestamp) == (
        taken,
        Ok::<u64, ErrorView>(v.handle.tree.next_id),
    ));
    assert(w.handle.wf());
    lemma_references_recorded(
        w.handle,
        message,
        own.references(),
        others,
        w.turn_id,
        timestamp,
    );
    let told = acceptable(taken.request().messages, taken.strips_reasoning);
    let k = leading_instructions(told);
    lemma_leading_instructions(told);
    let orders = own.orders().map_values(|t: Seq<char>| MessageView::plain("system"@, t));
    assert(instructions_of(turn) =~= orders);
    assert((told.take(k) + orders + told.skip(k)).subrange(k, k + own.orders().len()) =~= orders);
}

/// Of the material of a message for one use the latest counts.
pub proof fn lemma_latest_material_counts(
    snapshots: Seq<SnapshotView>,
    id: u64,
    placement: ContextSnapshotPlacement,
    i: int,
)
    requires
        0 <= i < snapshots.len(),
        snapshots[i].owner_node_id == id,
    ensures
        snapshots[i].placement == placement && (forall|j: int| #![trigger snapshots[j]]
            i < j < snapshots.len() ==> !(snapshots[j].owner_node_id == id
                && snapshots[j].placement == placement)) ==> material_for(
            snapshots,
            id,
            placement,
        ) == Some(i),
        (forall|j: int| #![trigger snapshots[j]]
            i < j < snapshots.len() ==> snapshots[j].owner_node_id != id) ==> material_of(
            snapshots,
            id,
        ) == Some(i),
    decreases snapshots.len(),
{
    let earlier = snapshots.drop_last();
    let n = earlier.len() as int;
    if i < n {
        assert(earlier[i] == snapshots[i]);
        lemma_latest_material_counts(earlier, id, placement, i);
        assert(snapshots[n] == snapshots.last());
        assert forall|j: int| #![trigger earlier[j]] i < j < n implies earlier[j]
            == snapshots[j] by {}
    }
}

/// The material that counts at the end of a path is that of the last message on it that has any, and
/// there is none only where no message on it has any.
pub proof fn lemma_material_on_a_path(path: Seq<u64>, snapshots: Seq<SnapshotView>, k: int)
    requires
        0 <= k < path.len(),
    ensures
        material_of(snapshots, path[k]) is Some && (forall|j: int| #![trigger path[j]]
            k < j < path.len() ==> material_of(snapshots, path[j]) is None) ==> material_on(
            path,
            snapshots,
        ) == material_of(snapshots, path[k]),
        material_on(path, snapshots) is None ==> material_of(snapshots, path[k]) is None,
    decreases path.len(),
{
    let earlier = path.drop_last();
    let n = earlier.len() as int;
    if k < n {
        assert(earlier[k] == path[k]);
        lemma_material_on_a_path(earlier, snapshots, k);
        assert(path[n] == path.last());
        assert forall|j: int| #![trigger earlier[j]] k < j < n implies earlier[j] == path[j] by {}
    }
}

proof fn lemma_one_message_is_sent(n: NodeView, snapshots: Seq<SnapshotView>)
    ensures
        compiled(seq![n], snapshots) == compiled_node(n, snapshots),
{
    let none = Seq::<NodeView>::empty();
    assert(seq![n].drop_last() =~= none);
    assert(compiled(none, snapshots) =~= Seq::<MessageView>::empty());
    assert(compiled(seq![n], snapshots) == compiled(none, snapshots) + compiled_node(n, snapshots));
    assert(compiled(none, snapshots) + compiled_node(n, snapshots) =~= compiled_node(n, snapshots));
}

/// A conversation is sent message by message, each as it was said. Material for a message of the
/// user stands in front of its text, in the same message; material behind a message follows it in a
/// message of its own.
pub proof fn lemma_conversation_is_sent(
    front: Seq<NodeView>,
    back: Seq<NodeView>,
    n: NodeView,
    snapshots: Seq<SnapshotView>,
    x: SnapshotView,
)
    requires
        x.owner_node_id == n.id,
    ensures
        compiled(front + back, snapshots) == compiled(front, snapshots) + compiled(back, snapshots),
        compiled(seq![n], Seq::empty()) == seq![n.message],
        ({
            let before = compiled(seq![n], snapshots);
            let after = compiled(seq![n], snapshots.push(x));
            &&& before.len() > 0
            &&& x.placement == ContextSnapshotPlacement::AfterNode ==> after == seq![
                before[0],
                MessageView::plain("user"@, rendered(x)),
            ]
            &&& x.placement == ContextSnapshotPlacement::UserMessage && n.message.role == "user"@
                ==> after == before.update(
                0,
                MessageView {
                    content: Some(with_reference(rendered(x), text_or_empty(n.message.content))),
                    ..n.message
                },
            )
            &&& x.placement == ContextSnapshotPlacement::UserMessage && n.message.role != "user"@
                ==> after == before
        }),
    decreases back.len(),
{
    if back.len() == 0 {
        assert(front + back =~= front);
        assert(compiled(front, snapshots) + compiled(back, snapshots) =~= compiled(
            front,
            snapshots,
        ));
    } else {
        lemma_conversation_is_sent(front, back.drop_last(), n, snapshots, x);
        assert((front + back).drop_last() =~= front + back.drop_last());
        assert((front + back).last() == back.last());
        assert(compiled(front + back, snapshots) =~= compiled(front, snapshots) + compiled(
            back,
            snapshots,
        ));
    }
    lemma_one_message_is_sent(n, Seq::empty());
    lemma_one_message_is_sent(n, snapshots);
    lemma_one_message_is_sent(n, snapshots.push(x));
    assert(snapshots.push(x).drop_last() =~= snapshots);
    assert(snapshots.push(x).last() == x);
    let before = compiled_node(n, snapshots);
    let after = compiled_node(n, snapshots.push(x));
    lemma_material_for(snapshots, n.id, ContextSnapshotPlacement::UserMessage);
    lemma_material_for(snapshots, n.id, ContextSnapshotPlacement::AfterNode);
    if x.placement == ContextSnapshotPlacement::AfterNode {
        assert(after =~= seq![before[0], MessageView::plain("user"@, rendered(x))]);
    } else if n.message.role == "user"@ {
        assert(after =~= before.update(0, with_material(n.message, x)));
    } else {
        assert(after =~= before);
    }
}

/// The request for a conversation begins with all instructions of the session, has its parameters,
/// and offers every tool; where there are no tools it says nothing of tools.
pub proof fn lemma_request_of_a_session(v: LlmView, i: int)
    ensures
        ({
            let r = v.request();
            let front = v.handle.system_messages;
            let sent = compiled(v.handle.tree.branch(), v.handle.context_snapshots);
            &&& r.messages.len() == front.len() + sent.len()
            &&& 0 <= i < front.len() ==> r.messages[i] == front[i]
            &&& front.len() <= i < r.messages.len() ==> r.messages[i] == sent[i - front.len()]
            &&& v.tools.len() == 0 ==> r.tools is None
            &&& v.tools.len() > 0 ==> r.tools is Some && r.tools->0.len() == v.tools.len()
            &&& 0 <= i < v.tools.len() ==> r.tools->0[i] == v.tools[i].1
            &&& r == (RequestView { messages: r.messages, tools: r.tools, ..v.handle.request })
        }),
{
    assert(0 <= i < v.tools.len() ==> descriptions(v.tools)[i] == v.tools[i].1);
}

/// The configuration of a turn changes what it names and nothing else: a model, a temperature or a
/// length that it names takes the place of that of the request, and the messages of the request stay
/// in their order round its instructions.
pub proof fn lemma_parameters_of_a_turn(r: RequestView, turn: TurnView)
    ensures
        ({
            let c = configured(r, turn);
            let k = leading_instructions(r.messages);
            let n = turn.instruction_messages.len();
            &&& turn.model_override is Some ==> c.model == turn.model_override->0
            &&& turn.model_override is None ==> c.model == r.model
            &&& turn.temperature_override is Some ==> c.temperature == turn.temperature_override
            &&& turn.temperature_override is None ==> c.temperature == r.temperature
            &&& turn.max_tokens_override is Some ==> c.max_tokens == turn.max_tokens_override
            &&& turn.max_tokens_override is None ==> c.max_tokens == r.max_tokens
            &&& c == (RequestView {
                messages: c.messages,
                tools: c.tools,
                model: c.model,
                temperature: c.temperature,
                max_tokens: c.max_tokens,
                ..r
            })
            &&& c.messages.take(k) == r.messages.take(k)
            &&& c.messages.skip(k + n as int) == r.messages.skip(k)
            &&& configured(r, TurnView::nothing()) == r
        }),
{
    lemma_leading_instructions(r.messages);
    let k = leading_instructions(r.messages);
    let n = turn.instruction_messages.len() as int;
    let c = configured(r, turn);
    assert(instructions_of(turn).len() == n);
    assert(c.messages.take(k) =~= r.messages.take(k));
    assert(c.messages.skip(k + n) =~= r.messages.skip(k));
    let same = configured(r, TurnView::nothing());
    assert(same.messages =~= r.messages);
    assert(same =~= r);
}

/// What is sent at first fits the window: at most the budget, as the session estimates it. A request
/// that fits is sent as it is and without a word; one that cannot be made to fit is not sent. Without
/// a known window every request is sent as it is.
pub proof fn lemma_first_attempt_fits(v: LlmView, req: RequestView)
    requires
        req.messages.len() <= usize::MAX,
    ensures
        ({
            let b = v.baseline_for(req);
            let p = v.begin(req, false);
            let q = p.next->Send_0;
            &&& v.config.context_window_tokens is None ==> p.next is Send && q.request == req
                && p.events.len() == 0
            &&& v.config.context_window_tokens is Some ==> {
                let window = v.config.context_window_tokens->0 as nat;
                let budget = available(req.max_tokens, window, source_of(b));
                &&& window < 0x20_0000_0000_0000 && p.next is Send ==> calibrated(
                    q.request,
                    v.factor,
                    b,
                ) <= budget
                &&& window < 0x20_0000_0000_0000 && calibrated(req, v.factor, b) <= budget
                    ==> p.next is Send && q.request == req && p.events.len() == 0
                &&& p.next is Done ==> p.next->Done_0 is Err && p.next->Done_0->Err_0.code
                    == ErrorCode::ContextBudgetExceeded && p.events.len() == 0
            }
            &&& p.next is Send ==> {
                &&& q.estimate == request_tokens(q.request)
                &&& q.head == v.handle.tree.head
                &&& q.factor == v.factor
                &&& q.baseline == b
                &&& q.required == v.required_material()
                &&& q.request_id == p.session.request_id
                &&& q.retry_budget is None
            }
            &&& v.request_id < u64::MAX ==> p.session.request_id == v.request_id + 1
            &&& p.session == (LlmView { request_id: p.session.request_id, ..v })
            &&& v.begin(req, true) == (Progress {
                session: v,
                events: Seq::empty(),
                next: SendingView::Done(Ok(OutputView::cancelled())),
            })
        }),
{
    if v.config.context_window_tokens is Some {
        let w = v.config.context_window_tokens->0;
        let t = v.first_trimming(req, w);
        lemma_trimmed_fits(t, false);
        lemma_when_trimming_succeeds(t, false);
        if w < 0x20_0000_0000_0000 {
            let one = crate::double::Real { bits: 0x3ff0_0000_0000_0000 };
            lemma_budget_is_a_share(
                req.max_tokens,
                w as nat,
                one,
                one,
                source_of(v.baseline_for(req)),
            );
        }
        assert(req.with_messages(req.messages) =~= req);
    }
}

/// A session learns from the counts of an answer, and from nothing else: the factor follows what was
/// counted against what was estimated, and the count stands for the request that it was made for.
pub proof fn lemma_counts_are_learned(
    v: LlmView,
    p: PendingView,
    o: OutputView,
    u: Usage,
    h: u64,
    factor: crate::double::Fl,
)
    requires
        o.usage == Some(u),
        u.prompt_tokens > 0,
        p.head == Some(h),
    ensures
        ({
            let after = v.after(p, Ok(o), false);
            let s = after.session;
            &&& after.events == seq![
                SessionEventView::RequestUsage {
                    turn_id: v.usage_turn_id,
                    request_id: p.request_id,
                    attempt: p.attempt,
                    usage: u,
                },
            ]
            &&& p.estimate > 0 ==> s.factor == observed_factor(
                v.factor,
                u.prompt_tokens as nat,
                p.estimate,
            )
            &&& p.estimate == 0 ==> s.factor == v.factor
            &&& BaselineView::of(u.prompt_tokens as int, p.request, h) is Some ==> s.baseline
                is Some && s.baseline->0.tokens(p.request, factor) == u.prompt_tokens
                && s.baseline->0.head_node_id == h
            &&& s == (LlmView { factor: s.factor, baseline: s.baseline, ..v })
            &&& v.after(p, Ok(OutputView { usage: None, ..o }), false).session == v
            &&& v.after(p, Ok(OutputView { usage: None, ..o }), false).events.len() == 0
        }),
{
    if BaselineView::of(u.prompt_tokens as int, p.request, h) is Some {
        lemma_baseline_stands_for_its_request(u.prompt_tokens as int, p.request, h, factor);
    }
    let quiet = OutputView { usage: None, ..o };
    assert(v.after(p, Ok(quiet), false).session =~= v);
}

/// A second attempt sends what a rule made of the request, for the same head and under the same
/// number; only where the request was too long is it made shorter, for seven tenths of its size
/// where the window is not known. A session that once had to leave thoughts out goes on to do so.
pub proof fn lemma_second_attempt(v: LlmView, p: PendingView, e: ErrorView, cancelled: bool)
    requires
        p.attempt == 1,
        repaired(p.request, e) is Some,
    ensures
        ({
            let after = v.after(p, Err(e), false);
            let q = after.next->Send_0;
            &&& !too_long(e) ==> after.next is Send && q.request == repaired(
                p.request,
                e,
            )->0.request && q.retry_budget is None && after.events.len() == 0
            &&& after.next is Send ==> {
                &&& q.estimate == request_tokens(q.request)
                &&& q.head == p.head
                &&& q.request_id == p.request_id
                &&& q.factor == p.factor
                &&& q.baseline == p.baseline
                &&& q.required == p.required
            }
            &&& v.strips_reasoning ==> after.session.strips_reasoning
            &&& after.session == (LlmView {
                strips_reasoning: after.session.strips_reasoning,
                ..v
            })
            &&& v.after(p, Err(e), true) == (Progress {
                session: v,
                events: Seq::empty(),
                next: SendingView::Done(Ok(OutputView::cancelled())),
            })
        }),
        ({
            let size = calibrated(p.request, p.factor, p.baseline);
            let budget = retry_budget_of(None, p);
            size * 70 <= u64::MAX ==> budget * 100 <= size * 70 < budget * 100 + 100
        }),
        forall|window: u64| #![trigger retry_budget_of(Some(window), p)]
            window < 0x20_0000_0000_0000 ==> retry_budget_of(Some(window), p) <= available(
                p.request.max_tokens,
                window as nat,
                source_of(p.baseline),
            ),
{
    lemma_rules_differ();
    lemma_too_long_rule(p.request, e);
    assert forall|window: u64| #![trigger retry_budget_of(Some(window), p)] window
        < 0x20_0000_0000_0000 implies retry_budget_of(Some(window), p) <= available(
        p.request.max_tokens,
        window as nat,
        source_of(p.baseline),
    ) by {
        let scale = crate::double::Real { bits: 0x3fe6_6666_6666_6666 };
        lemma_budget_is_a_share(
            p.request.max_tokens,
            window as nat,
            scale,
            scale,
            source_of(p.baseline),
        );
    }
}

/// A look at a request tells its size, what the window leaves for it, and whether that is too
/// little.
pub proof fn lemma_look_tells(p: RequestPreflight, v: LlmView, r: RequestView, serialized: Seq<u8>)
    requires
        looks(p, v, r, serialized),
    ensures
        p.estimated_input_tokens == calibrated(r, v.factor, v.baseline_for(r)),
        p.estimate_source@ == source_of(v.baseline_for(r)).name(),
        p.request_fingerprint@ == decimal(fingerprint(serialized) as nat),
        p.head_node_id == v.handle.tree.head,
        p.context_window_tokens == v.config.context_window_tokens,
        p.suggest_compaction is Some <==> v.config.context_window_tokens is Some,
        p.input_budget_tokens is Some <==> v.config.context_window_tokens is Some,
        v.config.context_window_tokens is Some ==> {
            let w = v.config.context_window_tokens->0;
            &&& p.suggest_compaction->0 <==> p.estimated_input_tokens > p.input_budget_tokens->0
            &&& p.output_reserve_tokens->0 == output_reserve(r.max_tokens, w as nat)
            &&& p.safety_reserve_tokens->0 == safety_reserve(
                w as nat,
                source_of(v.baseline_for(r)),
            )
            &&& p.output_reserve_tokens->0 + p.safety_reserve_tokens->0 <= w
                ==> p.input_budget_tokens->0 + p.output_reserve_tokens->0
                + p.safety_reserve_tokens->0 == w
        },
{
}

/// The requests of a turn differ only in what has to differ: going on with an answer adds the order
/// for it at the end, and behind the results of tools the request is what a first one would be, as
/// long as no tool was withdrawn and tools may still be called.
pub proof fn lemma_requests_of_a_turn(
    v: LlmView,
    id: u64,
    turn: TurnView,
    withdrawn: Seq<Seq<char>>,
    rounds: nat,
    last: bool,
)
    ensures
        ({
            let first = request_of_turn(v, None, turn, withdrawn, 0, false);
            let further = request_of_turn(v, Some(id), turn, withdrawn, 0, false);
            &&& further == first.with_messages(
                first.messages.push(
                    MessageView::plain("user"@, continuation_text(v.handle.node(id)->0.message)),
                ),
            )
            &&& rounds < v.config.max_tool_rounds ==> request_of_turn(
                v,
                None,
                turn,
                Seq::empty(),
                rounds,
                last,
            ) == first
            &&& rounds >= v.config.max_tool_rounds && (rounds > 0 || last) ==> request_of_turn(
                v,
                None,
                turn,
                Seq::empty(),
                rounds,
                last,
            ).tool_choice == Some("none"@)
            &&& first.model == match turn.model_override {
                Some(m) => m,
                None => v.handle.request.model,
            }
        }),
{
    lemma_roles();
    let told = acceptable(v.request().messages, v.strips_reasoning);
    let order = MessageView::plain("user"@, continuation_text(v.handle.node(id)->0.message));
    let k = leading_instructions(told);
    let longer = told.push(order);
    lemma_leading_instructions(told);
    lemma_leading_instructions(longer);
    let j = leading_instructions(longer);
    if j < k {
        assert(longer[j] == told[j]);
    } else if j > k {
        assert(longer[k].role == "system"@);
        if k < told.len() {
            assert(longer[k] == told[k]);
        }
    }
    assert(j == k);
    let first = request_of_turn(v, None, turn, withdrawn, 0, false);
    let further = request_of_turn(v, Some(id), turn, withdrawn, 0, false);
    assert(longer.take(k) =~= told.take(k));
    assert(longer.skip(k) =~= told.skip(k).push(order));
    assert(further.messages =~= first.messages.push(order));
    assert(further =~= first.with_messages(first.messages.push(order)));
    lemma_followup_changes(first, Seq::empty(), Seq::empty(), false);
}

/// A turn that could not be assembled, or for which there is no number left, changes nothing and
/// says why; any other is taken in under the next number.
pub proof fn lemma_what_is_heard(
    v: LlmView,
    message: Seq<char>,
    turn: TurnView,
    e: ErrorView,
    timestamp: Seq<char>,
)
    ensures
        heard(v, message, Err(e), timestamp) == (v, Err::<u64, ErrorView>(e)),
        v.handle.tree.next_id == u64::MAX ==> heard(v, message, Ok(turn), timestamp).0 == v
            && heard(v, message, Ok(turn), timestamp).1 is Err,
        v.handle.tree.next_id < u64::MAX ==> {
            let (w, r) = heard(v, message, Ok(turn), timestamp);
            &&& r == Ok::<u64, ErrorView>(v.handle.tree.next_id)
            &&& w.usage_turn_id == v.handle.tree.next_id
            &&& w.handle.tree.head == Some(v.handle.tree.next_id)
            &&& w.handle.tree.nodes.len() == v.handle.tree.nodes.len() + 1
            &&& w.handle.tree.nodes.last().message == MessageView::plain("user"@, message)
            &&& w.handle.tree.nodes.last().parent == v.handle.tree.head
            &&& w.handle.context_snapshots.len() == v.handle.context_snapshots.len() + (
            if has_news(v.handle, turn.context_messages) {
                1int
            } else {
                0
            })
        },
{
}

/// An answer that came in one piece is taken from its first choice; a body that is empty, cannot be
/// read or holds no choice is an error that says so.
pub proof fn lemma_answer_in_one_piece(
    body: Seq<char>,
    choices: Seq<ChoiceView>,
    usage: Option<Usage>,
    source: Seq<char>,
)
    ensures
        body.len() == 0 ==> whole_answer(body, Ok((choices, usage))) is Err && whole_answer(
            body,
            Ok((choices, usage)),
        )->Err_0.code == ErrorCode::LlmResponseEmpty,
        body.len() > 0 ==> whole_answer(body, Err(source)) is Err && whole_answer(
            body,
            Err(source),
        )->Err_0.code == ErrorCode::LlmResponseParseError,
        body.len() > 0 && choices.len() == 0 ==> whole_answer(body, Ok((choices, usage))) is Err
            && whole_answer(body, Ok((choices, usage)))->Err_0.code
            == ErrorCode::LlmResponseParseError,
        body.len() > 0 && choices.len() > 0 ==> whole_answer(body, Ok((choices, usage))) == Ok::<
            _,
            ErrorView,
        >(
            (
                whole_texts(choices[0]) + call_events(whole_calls(choices[0])),
                whole_output(choices[0], usage),
            ),
        ),
{
}

/// A turn is recorded exactly where the record of it would say something.
pub proof fn lemma_when_a_turn_is_recorded(o: OutputView)
    ensures
        gave_something(o) <==> answer(o).content is Some || answer(o).reasoning_content is Some
            || answer(o).tool_calls is Some,
{
}

/// A turn is assembled from the context that it brought; only where it brought none does the one
/// told last count.
pub proof fn lemma_context_of_a_turn(own: TaskContext, latest: TaskContext)
    ensures
        context_of_turn(Some(own), latest) == own,
        context_of_turn(None, latest) == latest,
{
}

/// Trimming before a request is sent is told, with the sizes before and behind it.
pub proof fn lemma_trimming_is_told(v: LlmView, req: RequestView)
    requires
        req.messages.len() <= usize::MAX,
        v.config.context_window_tokens is Some,
    ensures
        ({
            let p = v.begin(req, false);
            let b = v.baseline_for(req);
            let t = v.first_trimming(req, v.config.context_window_tokens->0);
            &&& p.events.len() <= 1
            &&& p.events.len() == 1 && t.budget <= u64::MAX ==> p.next is Send && p.events[0]
                is ContextTrimmed && p.events[0]->before == calibrated(req, v.factor, b) as u64
                && p.events[0]->after == calibrated(p.next->Send_0.request, v.factor, b) as u64
                && p.events[0]->suggest_compaction && p.events[0]->estimate_source == source_of(
                b,
            ).name()
        }),
{
    let t = v.first_trimming(req, v.config.context_window_tokens->0);
    let p = v.begin(req, false);
    assert(p.events.len() == 1 ==> t.outcome(false).1 is Ok && t.outcome(false).1->Ok_0 is Some);
    if p.events.len() == 1 && t.budget <= u64::MAX {
        lemma_report_tells_the_truth(t, false);
        lemma_outgoing(t, false);
        let r = t.outcome(false).0;
        assert(req.with_messages(req.messages) =~= req);
        assert(p.next->Send_0.request == r);
        assert(req.with_messages(r.messages) == r);
    }
}

/// Trimming changes the messages of a request and nothing else.
proof fn lemma_outgoing(t: Trimming, force: bool)
    ensures
        t.request.with_messages(t.outcome(force).0.messages) == t.outcome(force).0,
{
    assert(t.request.with_messages(t.outcome(force).0.messages) =~= t.outcome(force).0);
}

/// A second attempt counts as it came out; only one that was made shorter and is still too long
/// becomes the failure for want of room, with the budget that it was made for.
pub proof fn lemma_after_the_second_attempt(
    v: LlmView,
    p: PendingView,
    e: ErrorView,
    o: OutputView,
    cancelled: bool,
)
    requires
        p.attempt == 2,
    ensures
        v.after(p, Ok(o), cancelled).next == SendingView::Done(Ok(o)),
        v.after(p, Err(e), cancelled).session == v,
        v.after(p, Err(e), cancelled).events.len() == 0,
        !too_long(e) || p.retry_budget is None ==> v.after(p, Err(e), cancelled).next
            == SendingView::Done(Err(e)),
        too_long(e) && p.retry_budget is Some ==> {
            let next = v.after(p, Err(e), cancelled).next;
            &&& next is Done
            &&& next->Done_0 is Err
            &&& next->Done_0->Err_0.code == ErrorCode::ContextBudgetExceeded
            &&& next->Done_0->Err_0.detail.dom().contains("budget"@)
            &&& next->Done_0->Err_0.detail["budget"@] == JsonView::Int(p.retry_budget->0 as int)
        },
{
    reveal_strlit("budget");
    reveal_strlit("actual");
    reveal_strlit("top_3_largest_messages");
    assert("budget"@[0] != "actual"@[0]);
    assert("top_3_largest_messages"@.len() == 22 && "budget"@.len() == 6);
}

proof fn lemma_trimming_keeps_material(t: Trimming, force: bool)
    requires
        t.request.messages.len() <= usize::MAX,
        t.required is Some,
        has_reference(t.request.messages, t.required->0),
        last_user_message(t.request.messages) is Some,
    ensures
        t.outcome(force).1 is Ok ==> has_reference(
            t.outcome(force).0.messages,
            t.required->0,
        ),
{
    lemma_trimming_keeps_last_user(t, force);
    let u = t.taken(force);
    let done = u.trimmed(force);
    assert(u.request == t.request);
    assert(t.request.with_messages(done.messages).messages == done.messages);
}

/// The material that counts at the head is never lost on the way to the service: where the request
/// holds it, what is sent holds it, however much the request had to be trimmed, and so does what is
/// sent after the service found that too long.
pub proof fn lemma_material_reaches_the_service(
    v: LlmView,
    req: RequestView,
    i: int,
    p: PendingView,
    e: ErrorView,
)
    requires
        req.messages.len() <= usize::MAX,
        p.request.messages.len() <= usize::MAX,
        material_on(v.handle.tree.head_path(), v.handle.context_snapshots) == Some(i),
        has_reference(req.messages, rendered(v.handle.context_snapshots[i])),
        last_user_message(req.messages) is Some,
        p.attempt == 1,
        p.required is Some,
        has_reference(p.request.messages, p.required->0),
        last_user_message(p.request.messages) is Some,
        too_long(e),
    ensures
        ({
            let first = v.begin(req, false).next;
            let second = v.after(p, Err(e), false).next;
            &&& first is Send ==> has_reference(
                first->Send_0.request.messages,
                rendered(v.handle.context_snapshots[i]),
            ) && first->Send_0.required == Some(rendered(v.handle.context_snapshots[i]))
            &&& second is Send ==> has_reference(second->Send_0.request.messages, p.required->0)
        }),
{
    lemma_too_long_rule(p.request, e);
    lemma_rules_differ();
    if v.config.context_window_tokens is Some {
        let t = v.first_trimming(req, v.config.context_window_tokens->0);
        lemma_trimming_keeps_material(t, false);
    }
    let t = v.retry_trimming(p);
    assert((Trimming { request: p.request, ..t }) == t);
    lemma_trimming_keeps_material(t, true);
}

/// No stored material that can be used is left out: the first piece for a use of a message that
/// exists is taken over.
pub proof fn lemma_usable_material_is_kept(tree: TreeView, snapshots: Seq<SnapshotView>, i: int)
    requires
        0 <= i < snapshots.len(),
        tree.has(snapshots[i].owner_node_id),
        forall|j: int| #![trigger snapshots[j]]
            0 <= j < i ==> !(snapshots[j].owner_node_id == snapshots[i].owner_node_id
                && snapshots[j].placement == snapshots[i].placement),
    ensures
        usable(tree, snapshots).contains(snapshots[i]),
    decreases snapshots.len(),
{
    let earlier = snapshots.drop_last();
    let before = usable(tree, earlier);
    let kept = usable(tree, snapshots);
    let s = snapshots[i];
    if i < earlier.len() {
        assert(earlier[i] == s);
        assert forall|j: int| #![trigger earlier[j]] 0 <= j < i implies !(
        earlier[j].owner_node_id == s.owner_node_id && earlier[j].placement == s.placement) by {
            assert(earlier[j] == snapshots[j]);
        }
        lemma_usable_material_is_kept(tree, earlier, i);
        let k = choose|k: int| 0 <= k < before.len() && before[k] == s;
        assert(kept[k] == s);
    } else {
        lemma_stored_material(tree, earlier);
        lemma_no_piece(before, s.owner_node_id, s.placement);
        assert forall|k: int| #![trigger before[k]] 0 <= k < before.len() implies !(
        before[k].owner_node_id == s.owner_node_id && before[k].placement == s.placement) by {
            assert(earlier.contains(before[k]));
            let j = choose|j: int| 0 <= j < earlier.len() && earlier[j] == before[k];
            assert(snapshots[j] == before[k]);
        }
        assert(kept[kept.len() - 1] == s);
    }
}

} // verus!
