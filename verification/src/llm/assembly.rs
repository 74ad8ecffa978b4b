//! How the requests of a session are put together from its conversation, its reference material and
//! the configuration of the turn.

use crate::double::Real;
use crate::llm::context_budget::{
    available, calibrated, calibrated_request_tokens, context_budget_breakdown, estimate_source,
    output_reserve, safety_reserve, source_of,
};
use crate::llm::context_snapshot::{
    compile_reference_message, compile_user_message, prepared, rendered, with_reference,
    ContextSnapshotPlacement, PreparedContextSnapshot, SnapshotView, TurnContextSnapshot,
};
use crate::llm::handle::{HandleView, SessionHandle};
use crate::llm::provider::{material_on, LLMSession, LlmView, SessionConfig};
use crate::llm::rounds::{front_instructions, leading_instructions};
use crate::llm::sanitize::{repaired_from, tidied_from, without_reasoning};
use crate::llm::session::{answer, answer_message, next_turn};
use crate::llm::stream_turn::{OutputView, TurnOutput};
use crate::llm::token_estimate::{
    fingerprint, one, request_fingerprint, RequestBaseline, TokenCalibrator,
};
use crate::llm::tool::{descriptions, ToolRegistry};
use crate::llm::tree::{
    lemma_place, place_of, preloaded, ConversationNode, ConversationNodeSeed, ConversationTree,
    NodeView, TreeView,
};
use crate::llm::types::{
    ChatRequest, Message, MessageView, RequestPreflight, RequestView, SessionEvent,
    SessionEventView,
};
use crate::model::{
    duplicate_all, duplicate_all_option, lemma_views_insert, lemma_views_push, text_or_empty,
    view_opt, views,
};
use crate::orchestrator::context::{AssembledTurn, ContextView, TurnView};
use crate::text::{decimal, decimal_text, same_text};
use std::sync::Arc;
use vstd::prelude::*;

verus! {

/// The place of the material given last to a message, for a given use.
pub open spec fn material_for(
    snapshots: Seq<SnapshotView>,
    id: u64,
    placement: ContextSnapshotPlacement,
) -> Option<int>
    decreases snapshots.len(),
{
    if snapshots.len() == 0 {
        None
    } else if snapshots.last().owner_node_id == id && snapshots.last().placement == placement {
        Some(snapshots.len() - 1)
    } else {
        material_for(snapshots.drop_last(), id, placement)
    }
}

fn find_for(
    snapshots: &Vec<TurnContextSnapshot>,
    id: u64,
    placement: ContextSnapshotPlacement,
) -> (r: Option<usize>)
    ensures
        match r {
            Some(i) => material_for(views(snapshots@), id, placement) == Some(i as int) && i
                < snapshots@.len(),
            None => material_for(views(snapshots@), id, placement) is None,
        },
{
    let ghost s = views(snapshots@);
    let mut n: usize = snapshots.len();
    assert(s.take(n as int) =~= s);
    while n > 0
        invariant
            n <= snapshots@.len(),
            s == views(snapshots@),
            material_for(s, id, placement) == material_for(s.take(n as int), id, placement),
        decreases n,
    {
        proof {
            assert(s.take(n as int).drop_last() =~= s.take(n - 1));
            assert(s.take(n as int).last() == snapshots@[n - 1]@);
        }
        if snapshots[n - 1].owner_node_id == id && snapshots[n - 1].placement == placement {
            return Some(n - 1);
        }
        n = n - 1;
    }
    None
}

/// A message of the user with the material that belongs to it.
pub open spec fn with_material(m: MessageView, s: SnapshotView) -> MessageView {
    MessageView {
        content: Some(with_reference(rendered(s), text_or_empty(m.content))),
        ..m
    }
}

/// What goes to the model for a message of the conversation: a message of the user with its
/// material in front of it, any other as it is; and behind it material in a message of its own,
/// where there is such.
pub open spec fn compiled_node(n: NodeView, snapshots: Seq<SnapshotView>) -> Seq<MessageView> {
    let own = material_for(snapshots, n.id, ContextSnapshotPlacement::UserMessage);
    let behind = material_for(snapshots, n.id, ContextSnapshotPlacement::AfterNode);
    let first = if own is Some && n.message.role == "user"@ {
        with_material(n.message, snapshots[own->0])
    } else {
        n.message
    };
    match behind {
        Some(i) => seq![first, MessageView::plain("user"@, rendered(snapshots[i]))],
        None => seq![first],
    }
}

/// What goes to the model for a branch of the conversation.
pub open spec fn compiled(branch: Seq<NodeView>, snapshots: Seq<SnapshotView>) -> Seq<MessageView>
    decreases branch.len(),
{
    if branch.len() == 0 {
        Seq::empty()
    } else {
        compiled(branch.drop_last(), snapshots) + compiled_node(branch.last(), snapshots)
    }
}

fn push_message(out: &mut Vec<Message>, m: Message)
    ensures
        views(final(out)@) == views(old(out)@).push(m@),
{
    proof {
        lemma_views_push(out@, m);
    }
    out.push(m);
}

fn push_compiled(out: &mut Vec<Message>, node: &ConversationNode, snapshots: &Vec<TurnContextSnapshot>)
    ensures
        views(final(out)@) == views(old(out)@) + compiled_node(node@, views(snapshots@)),
{
    let ghost before = views(out@);
    let ghost s = views(snapshots@);
    let copy: Message = node.message.clone();
    let first: Message = match find_for(snapshots, node.id, ContextSnapshotPlacement::UserMessage) {
        Some(i) => {
            assert(s[i as int] == snapshots@[i as int]@);
            if same_text(node.message.role.as_str(), "user") {
                compile_user_message(copy, &snapshots[i])
            } else {
                copy
            }
        },
        None => copy,
    };
    push_message(out, first);
    match find_for(snapshots, node.id, ContextSnapshotPlacement::AfterNode) {
        Some(i) => {
            assert(s[i as int] == snapshots@[i as int]@);
            push_message(out, compile_reference_message(&snapshots[i]));
        },
        None => {},
    }
    assert(views(out@) =~= before + compiled_node(node@, s));
}

/// Whether the references of a turn have to be recorded: they are not those that count at the head.
pub open spec fn has_news(h: HandleView, references: Seq<Seq<char>>) -> bool {
    match material_on(h.tree.head_path(), h.context_snapshots) {
        Some(i) => !prepared(references).same_as(h.context_snapshots[i]),
        None => references.len() > 0,
    }
}

/// The conversation with what the user said, and with the references of the turn where they have
/// to be recorded.
pub open spec fn captured(
    h: HandleView,
    message: Seq<char>,
    references: Seq<Seq<char>>,
    turn_id: u64,
    timestamp: Seq<char>,
) -> HandleView {
    HandleView {
        tree: h.tree.appended(MessageView::plain("user"@, message), turn_id, timestamp),
        context_snapshots: if has_news(h, references) {
            h.context_snapshots.push(prepared(references).bound_to(h.tree.next_id))
        } else {
            h.context_snapshots
        },
        ..h
    }
}

/// Stored material that can be used: of messages that exist, and one piece for each use.
pub open spec fn usable(tree: TreeView, snapshots: Seq<SnapshotView>) -> Seq<SnapshotView>
    decreases snapshots.len(),
{
    if snapshots.len() == 0 {
        Seq::empty()
    } else {
        let kept = usable(tree, snapshots.drop_last());
        let s = snapshots.last();
        if tree.has(s.owner_node_id) && material_for(kept, s.owner_node_id, s.placement) is None {
            kept.push(s)
        } else {
            kept
        }
    }
}

/// A request with the configuration of a turn: instructions behind those at the front, and
/// parameters and tools in place of those of the session where the turn has any.
pub open spec fn configured(r: RequestView, turn: TurnView) -> RequestView {
    let k = leading_instructions(r.messages);
    RequestView {
        messages: r.messages.take(k) + instructions_of(turn) + r.messages.skip(k),
        tools: match turn.tool_schemas {
            Some(t) => Some(t),
            None => r.tools,
        },
        model: match turn.model_override {
            Some(m) => m,
            None => r.model,
        },
        temperature: match turn.temperature_override {
            Some(t) => Some(t),
            None => r.temperature,
        },
        max_tokens: match turn.max_tokens_override {
            Some(n) => Some(n),
            None => r.max_tokens,
        },
        ..r
    }
}

/// The instructions of a turn as messages.
pub open spec fn instructions_of(turn: TurnView) -> Seq<MessageView> {
    turn.instruction_messages.map_values(|t: Seq<char>| MessageView::plain("system"@, t))
}

/// Messages that services accept.
pub open spec fn acceptable(s: Seq<MessageView>, strips: bool) -> Seq<MessageView> {
    let t = tidied_from(repaired_from(s, 0), 0);
    if strips {
        without_reasoning(t)
    } else {
        t
    }
}

impl HandleView {
    /// The conversation is valid, and material belongs to messages of it.
    pub open spec fn wf(self) -> bool {
        &&& self.tree.wf()
        &&& forall|i: int| #![trigger self.context_snapshots[i]]
            0 <= i < self.context_snapshots.len() ==> self.tree.has(
                self.context_snapshots[i].owner_node_id,
            )
    }
}

impl LlmView {
    /// The request for the conversation up to the head.
    pub open spec fn request(self) -> RequestView {
        RequestView {
            messages: self.handle.system_messages + compiled(
                self.handle.tree.branch(),
                self.handle.context_snapshots,
            ),
            tools: if self.tools.len() == 0 {
                None
            } else {
                Some(descriptions(self.tools))
            },
            ..self.handle.request
        }
    }

    /// With what the user said.
    pub open spec fn hearing(
        self,
        message: Seq<char>,
        references: Seq<Seq<char>>,
        timestamp: Seq<char>,
    ) -> LlmView {
        LlmView {
            handle: captured(self.handle, message, references, self.turn_id, timestamp),
            usage_turn_id: self.handle.tree.next_id,
            ..self
        }
    }

    /// With one more message.
    pub open spec fn saying(self, m: MessageView, timestamp: Seq<char>) -> LlmView {
        LlmView {
            handle: HandleView {
                tree: self.handle.tree.appended(m, self.turn_id, timestamp),
                ..self.handle
            },
            ..self
        }
    }
}

/// Whether a turn gave anything that is to be recorded.
pub open spec fn gave_something(o: OutputView) -> bool {
    o.content.len() > 0 || o.reasoning.len() > 0 || o.tool_calls is Some
}

/// The numbers in a look at the next request.
pub open spec fn looks(p: RequestPreflight, v: LlmView, r: RequestView, serialized: Seq<u8>) -> bool {
    let b = v.baseline_for(r);
    let source = source_of(b);
    &&& p.estimated_input_tokens == calibrated(r, v.factor, b)
    &&& p.context_window_tokens == v.config.context_window_tokens
    &&& p.head_node_id == v.handle.tree.head
    &&& p.estimate_source@ == source.name()
    &&& p.request_fingerprint@ == decimal(fingerprint(serialized) as nat)
    &&& match v.config.context_window_tokens {
        Some(w) => {
            &&& p.output_reserve_tokens is Some
            &&& p.output_reserve_tokens->0 == output_reserve(r.max_tokens, w as nat)
            &&& p.safety_reserve_tokens is Some
            &&& p.safety_reserve_tokens->0 == safety_reserve(w as nat, source)
            &&& p.input_budget_tokens is Some
            &&& p.input_budget_tokens->0 == available(r.max_tokens, w as nat, source)
            &&& p.suggest_compaction == Some(
                calibrated(r, v.factor, b) > available(r.max_tokens, w as nat, source),
            )
        },
        None => {
            &&& p.output_reserve_tokens is None
            &&& p.safety_reserve_tokens is None
            &&& p.input_budget_tokens is None
            &&& p.suggest_compaction is None
        },
    }
}

impl LLMSession {
    /// A session in which nothing was said.
    pub fn new(config: SessionConfig, tool_registry: Arc<ToolRegistry>) -> (r: LLMSession)
        ensures
            r@.config == config@,
            r@.handle.wf(),
            r@.handle.request == RequestView::blank(),
            r@.handle.tree == (TreeView { nodes: Seq::empty(), head: None, next_id: 1 }),
            r@.handle.system_messages == Seq::<MessageView>::empty(),
            r@.handle.context_snapshots == Seq::<SnapshotView>::empty(),
            r@.handle.cancel_count == 0,
            r@.handle.context == ContextView::empty(),
            r@.tools == tool_registry@,
            r@.factor == one(),
            r@.baseline is None,
            r@.request_id == 0,
            r@.turn_id == 0,
            r@.usage_turn_id == 0,
            !r@.strips_reasoning,
    {
        LLMSession {
            config,
            handle: SessionHandle::new(),
            tool_registry,
            token_calibrator: TokenCalibrator::new(None),
            last_baseline: None,
            request_id: 0,
            turn_id: 0,
            usage_turn_id: 0,
            strip_reasoning_content: false,
        }
    }

    /// Names the model. Counts reported for another model do not serve any more.
    pub fn set_model(&mut self, model: &str)
        ensures
            final(self)@ == (LlmView {
                handle: old(self)@.handle.asking(
                    RequestView { model: model@, ..old(self)@.handle.request },
                ),
                baseline: None,
                ..old(self)@
            }),
    {
        self.handle.set_model(model);
        self.last_baseline = None;
    }

    /// Says whether answers are streamed.
    pub fn set_stream(&mut self, stream: bool)
        ensures
            final(self)@ == (LlmView {
                handle: old(self)@.handle.asking(
                    RequestView { stream: Some(stream), ..old(self)@.handle.request },
                ),
                ..old(self)@
            }),
    {
        self.handle.set_stream(stream);
    }

    /// Takes in a mode: its instructions, behind those that there are, and its parameters, where it
    /// has any.
    pub fn load_sense(&mut self, prompts: &Vec<String>, default_request: Option<ChatRequest>)
        ensures
            final(self)@ == (LlmView {
                handle: HandleView {
                    system_messages: old(self)@.handle.system_messages + views(prompts@).map_values(
                        |t: Seq<char>| MessageView::plain("system"@, t),
                    ),
                    request: match view_opt(default_request) {
                        Some(q) => q,
                        None => old(self)@.handle.request,
                    },
                    ..old(self)@.handle
                },
                ..old(self)@
            }),
    {
        let ghost before = self@;
        match default_request {
            Some(q) => {
                self.handle.request = q;
            },
            None => {},
        }
        let ghost all = views(prompts@).map_values(
            |t: Seq<char>| MessageView::plain("system"@, t),
        );
        let ghost shown = self@;
        let mut i: usize = 0;
        let mut messages: Vec<Message> = duplicate_all(&self.handle.system_messages);
        assert(views(messages@) =~= before.handle.system_messages + all.take(0));
        while i < prompts.len()
            invariant
                i <= prompts@.len(),
                all == views(prompts@).map_values(
                    |t: Seq<char>| MessageView::plain("system"@, t),
                ),
                views(messages@) == before.handle.system_messages + all.take(i as int),
            decreases prompts@.len() - i,
        {
            push_message(&mut messages, Message::system(prompts[i].as_str()));
            assert(views(messages@) =~= before.handle.system_messages + all.take(i + 1));
            i = i + 1;
        }
        assert(all.take(i as int) =~= all);
        self.handle.system_messages = messages;
        assert(self@ =~= (LlmView {
            handle: HandleView {
                system_messages: before.handle.system_messages + all,
                ..shown.handle
            },
            ..shown
        }));
    }

    /// Takes over a stored conversation.
    pub fn preload_history(&mut self, seeds: &Vec<ConversationNodeSeed>, head: Option<u64>)
        ensures
            final(self)@ == (LlmView {
                handle: HandleView {
                    tree: preloaded(views(seeds@), head),
                    context_snapshots: Seq::empty(),
                    ..old(self)@.handle
                },
                ..old(self)@
            }),
            final(self)@.handle.wf(),
    {
        self.handle.tree = ConversationTree::preload(seeds, head);
        self.handle.context_snapshots = Vec::new();
        assert(self@.handle.context_snapshots =~= Seq::<SnapshotView>::empty());
    }

    /// Takes over stored material. What belongs to no message, or is there already, is left out.
    pub fn preload_context_snapshots(&mut self, snapshots: &Vec<TurnContextSnapshot>)
        requires
            old(self)@.handle.tree.wf(),
        ensures
            final(self)@ == (LlmView {
                handle: HandleView {
                    context_snapshots: usable(old(self)@.handle.tree, views(snapshots@)),
                    ..old(self)@.handle
                },
                ..old(self)@
            }),
            final(self)@.handle.wf(),
    {
        let ghost tree = self@.handle.tree;
        let ghost s = views(snapshots@);
        let mut kept: Vec<TurnContextSnapshot> = Vec::new();
        let mut i: usize = 0;
        assert(s.take(0) =~= Seq::<SnapshotView>::empty());
        assert(views(kept@) =~= Seq::<SnapshotView>::empty());
        while i < snapshots.len()
            invariant
                i <= snapshots@.len(),
                s == views(snapshots@),
                tree == self@.handle.tree,
                views(kept@) == usable(tree, s.take(i as int)),
                forall|j: int| #![trigger views(kept@)[j]]
                    0 <= j < kept@.len() ==> tree.has(views(kept@)[j].owner_node_id),
            decreases snapshots@.len() - i,
        {
            let item: &TurnContextSnapshot = &snapshots[i];
            proof {
                assert(s.take(i + 1).drop_last() =~= s.take(i as int));
                assert(s.take(i + 1).last() == item@);
            }
            let owned: bool = self.handle.tree.get_node(item.owner_node_id).is_some();
            if owned && find_for(&kept, item.owner_node_id, item.placement).is_none() {
                let copy: TurnContextSnapshot = item.clone();
                let ghost before = views(kept@);
                proof {
                    lemma_views_push(kept@, copy);
                }
                kept.push(copy);
                assert forall|j: int| #![trigger views(kept@)[j]] 0 <= j < kept@.len() implies tree.has(
                    views(kept@)[j].owner_node_id,
                ) by {
                    if j < before.len() {
                        assert(views(kept@)[j] == before[j]);
                    }
                }
            }
            i = i + 1;
        }
        assert(s.take(i as int) =~= s);
        self.handle.context_snapshots = kept;
    }

    /// Adds a message behind the head. `None` where the numbers are used up.
    pub fn add_message(&mut self, message: Message, timestamp: &str) -> (r: Option<u64>)
        requires
            old(self)@.handle.wf(),
        ensures
            final(self)@.handle.wf(),
            match r {
                Some(id) => id == old(self)@.handle.tree.next_id && id < u64::MAX && final(self)@
                    == old(self)@.saying(message@, timestamp@),
                None => old(self)@.handle.tree.next_id == u64::MAX && final(self)@ == old(self)@,
            },
    {
        let ghost before = self@.handle;
        let r: Option<u64> = self.handle.tree.append(message, self.turn_id, timestamp);
        proof {
            if r is Some {
                lemma_owners_stay(before, self@.handle);
            }
        }
        r
    }

    /// Takes in what the user said, together with the references of the turn. They are recorded
    /// only where they are not those that count already. `None` where the numbers are used up.
    pub fn capture_user_turn(&mut self, message: &str, turn: &AssembledTurn, timestamp: &str) -> (r:
        Option<u64>)
        requires
            old(self)@.handle.wf(),
        ensures
            final(self)@.handle.wf(),
            match r {
                Some(id) => id == old(self)@.handle.tree.next_id && id < u64::MAX && final(self)@
                    == old(self)@.hearing(message@, turn@.context_messages, timestamp@),
                None => old(self)@.handle.tree.next_id == u64::MAX && final(self)@ == old(self)@,
            },
    {
        let ghost before = self@.handle;
        let path: Vec<u64> = self.handle.tree.path_to_head();
        let fresh: PreparedContextSnapshot = PreparedContextSnapshot::from_messages(
            turn.context_messages.as_slice(),
        );
        let news: bool = match LLMSession::latest_context_snapshot_on_path(
            &path,
            &self.handle.context_snapshots,
        ) {
            Some(s) => !fresh.matches(s),
            None => turn.context_messages.len() > 0,
        };
        assert(news == has_news(before, turn@.context_messages));
        let id: u64 = match self.handle.tree.append(
            Message::user(message),
            self.turn_id,
            timestamp,
        ) {
            Some(id) => id,
            None => {
                return None;
            },
        };
        proof {
            lemma_owners_stay(before, self@.handle);
        }
        if news {
            let bound: TurnContextSnapshot = fresh.bind(id);
            proof {
                lemma_views_push(self.handle.context_snapshots@, bound);
                let after = self@.handle.tree;
                assert(after.nodes[after.nodes.len() - 1].id == id);
                lemma_place(after.nodes, id);
            }
            self.handle.context_snapshots.push(bound);
        }
        self.usage_turn_id = id;
        Some(id)
    }

    /// The request for the conversation up to the head: instructions, messages with their material,
    /// and all tools.
    pub fn snapshot(&self) -> (r: ChatRequest)
        ensures
            r@ == self@.request(),
    {
        let branch: Vec<ConversationNode> = self.handle.tree.branch();
        let mut messages: Vec<Message> = duplicate_all(&self.handle.system_messages);
        let ghost front = views(self.handle.system_messages@);
        let ghost b = views(branch@);
        let ghost s = views(self.handle.context_snapshots@);
        let mut i: usize = 0;
        assert(b.take(0) =~= Seq::<NodeView>::empty());
        assert(views(messages@) =~= front + compiled(b.take(0), s));
        while i < branch.len()
            invariant
                i <= branch@.len(),
                b == views(branch@),
                s == views(self.handle.context_snapshots@),
                views(messages@) == front + compiled(b.take(i as int), s),
            decreases branch@.len() - i,
        {
            proof {
                assert(b.take(i + 1).drop_last() =~= b.take(i as int));
                assert(b.take(i + 1).last() == branch@[i as int]@);
            }
            push_compiled(&mut messages, &branch[i], &self.handle.context_snapshots);
            assert(views(messages@) =~= front + compiled(b.take(i + 1), s));
            i = i + 1;
        }
        assert(b.take(i as int) =~= b);
        let mut request: ChatRequest = self.handle.request.clone();
        request.messages = messages;
        request.tools = self.tool_registry.schemas();
        request
    }

    /// The request with the configuration of a turn. Its references are not put into the request:
    /// they belong to the messages of the user.
    pub fn apply_assembled(&self, request: ChatRequest, turn: &AssembledTurn) -> (r: ChatRequest)
        ensures
            r@ == configured(request@, turn@),
    {
        let mut out: ChatRequest = request;
        let ghost s = out@.messages;
        let k: usize = front_instructions(out.messages.as_slice());
        let behind: usize = out.messages.len() - k;
        let ghost all = instructions_of(turn@);
        let mut i: usize = 0;
        assert(s =~= s.take(k as int) + all.take(0) + s.skip(k as int));
        while i < turn.instruction_messages.len()
            invariant
                i <= turn.instruction_messages@.len(),
                k + behind == s.len(),
                all == instructions_of(turn@),
                out@ == (request@.with_messages(
                    s.take(k as int) + all.take(i as int) + s.skip(k as int),
                )),
            decreases turn.instruction_messages@.len() - i,
        {
            let m: Message = Message::system(turn.instruction_messages[i].as_str());
            proof {
                assert(m@ == all[i as int]);
                assert(out@.messages.len() == out.messages@.len());
                assert(out.messages@.len() == s.len() + i);
                lemma_views_insert(out.messages@, k + i, m);
                assert((s.take(k as int) + all.take(i as int) + s.skip(k as int)).insert(
                    k + i,
                    m@,
                ) =~= s.take(k as int) + all.take(i + 1) + s.skip(k as int));
            }
            let at: usize = out.messages.len() - behind;
            out.messages.insert(at, m);
            assert(out@ =~= request@.with_messages(
                s.take(k as int) + all.take(i + 1) + s.skip(k as int),
            ));
            i = i + 1;
        }
        assert(all.take(i as int) =~= all);
        if turn.tool_schemas.is_some() {
            out.tools = duplicate_all_option(&turn.tool_schemas);
        }
        match &turn.model_override {
            Some(m) => {
                out.model = m.clone();
            },
            None => {},
        }
        if turn.temperature_override.is_some() {
            out.temperature = turn.temperature_override;
        }
        if turn.max_tokens_override.is_some() {
            out.max_tokens = turn.max_tokens_override;
        }
        out
    }

    /// The request with messages that services accept; without what the model thought, where the
    /// service refused that before.
    pub fn sanitize_request(&self, request: ChatRequest) -> (r: ChatRequest)
        ensures
            r@ == request@.with_messages(acceptable(request@.messages, self@.strips_reasoning)),
    {
        let mut out: ChatRequest = request;
        let mut messages: Vec<Message> = LLMSession::sanitize_messages(
            LLMSession::sanitize_tool_call_blocks(duplicate_all(&out.messages)),
        );
        if self.strip_reasoning_content {
            let _ = LLMSession::strip_reasoning_content(&mut messages);
        }
        out.messages = messages;
        out
    }

    /// Begins a turn: gives it a number and tells of it, with the message that it answers.
    pub fn begin_turn(&mut self) -> (r: SessionEvent)
        ensures
            final(self)@ == (LlmView { turn_id: next_turn(old(self)@.turn_id), ..old(self)@ }),
            r@ == (SessionEventView::TurnBegin {
                turn_id: next_turn(old(self)@.turn_id),
                node_id: match old(self)@.handle.tree.head {
                    Some(h) => h,
                    None => 0,
                },
            }),
    {
        self.turn_id = self.turn_id.wrapping_add(1);
        let node_id: u64 = match self.handle.tree.head() {
            Some(h) => h,
            None => 0,
        };
        SessionEvent::TurnBegin { turn_id: self.turn_id, node_id }
    }

    /// Records what a turn gave, where it gave anything: also what came before it was cut short.
    pub fn record_answer(&mut self, output: &TurnOutput, timestamp: &str) -> (r: Option<u64>)
        requires
            old(self)@.handle.wf(),
        ensures
            final(self)@.handle.wf(),
            match r {
                Some(id) => gave_something(output@) && id == old(self)@.handle.tree.next_id && id
                    < u64::MAX && final(self)@ == old(self)@.saying(answer(output@), timestamp@),
                None => (!gave_something(output@) || old(self)@.handle.tree.next_id == u64::MAX)
                    && final(self)@ == old(self)@,
            },
    {
        if output.content.as_str().is_empty() && output.reasoning.as_str().is_empty()
            && output.tool_calls.is_none() {
            return None;
        }
        self.add_message(answer_message(output), timestamp)
    }

    /// The request that would be sent after the user said something, without taking that in.
    pub fn request_for_pending(&self, pending: &str, turn: &AssembledTurn) -> (r: ChatRequest)
        ensures
            r@ == configured(
                self@.request().with_messages(
                    self@.request().messages.push(
                        if has_news(self@.handle, turn@.context_messages) {
                            with_material(
                                MessageView::plain("user"@, pending@),
                                prepared(turn@.context_messages).bound_to(
                                    self@.handle.tree.next_id,
                                ),
                            )
                        } else {
                            MessageView::plain("user"@, pending@)
                        },
                    ),
                ),
                turn@,
            ),
    {
        let path: Vec<u64> = self.handle.tree.path_to_head();
        let fresh: PreparedContextSnapshot = PreparedContextSnapshot::from_messages(
            turn.context_messages.as_slice(),
        );
        let news: bool = match LLMSession::latest_context_snapshot_on_path(
            &path,
            &self.handle.context_snapshots,
        ) {
            Some(s) => !fresh.matches(s),
            None => turn.context_messages.len() > 0,
        };
        assert(news == has_news(self@.handle, turn@.context_messages));
        let mut request: ChatRequest = self.snapshot();
        let plain: Message = Message::user(pending);
        let message: Message = if news {
            compile_user_message(plain, &fresh.bind(0))
        } else {
            plain
        };
        push_message(&mut request.messages, message);
        self.apply_assembled(request, turn)
    }

    /// Looks at a request before it is sent: its size, and what the window leaves for it.
    /// `serialized` is the request as it would be sent.
    pub fn preflight(&self, request: &ChatRequest, serialized: &[u8]) -> (r: RequestPreflight)
        ensures
            looks(r, self@, request@, serialized@),
    {
        let head: Option<u64> = self.handle.tree.head();
        let path: Vec<u64> = self.handle.tree.path_to_head();
        let baseline: Option<&RequestBaseline> = match &self.last_baseline {
            Some(b) => if b.extends_request(request, head, path.as_slice()) {
                Some(b)
            } else {
                None
            },
            None => None,
        };
        let factor: Real = self.token_calibrator.factor();
        let estimated: u64 = calibrated_request_tokens(request, factor, baseline);
        let source = estimate_source(baseline);
        let mut output: Option<u64> = None;
        let mut safety: Option<u64> = None;
        let mut budget: Option<u64> = None;
        let mut suggest: Option<bool> = None;
        match self.config.context_window_tokens {
            Some(window) => {
                let (o, s, b): (u64, u64, u64) = context_budget_breakdown(request, window, source);
                output = Some(o);
                safety = Some(s);
                budget = Some(b);
                suggest = Some(estimated > b);
            },
            None => {},
        }
        RequestPreflight {
            estimated_input_tokens: estimated,
            context_window_tokens: self.config.context_window_tokens,
            output_reserve_tokens: output,
            safety_reserve_tokens: safety,
            input_budget_tokens: budget,
            suggest_compaction: suggest,
            head_node_id: head,
            request_fingerprint: decimal_text(request_fingerprint(serialized)),
            estimate_source: source.as_str().to_owned(),
        }
    }
}

/// Material keeps its message when the conversation grows.
proof fn lemma_owners_stay(before: HandleView, after: HandleView)
    requires
        before.wf(),
        after.tree.wf(),
        after.context_snapshots == before.context_snapshots,
        after.tree.nodes.len() == before.tree.nodes.len() + 1,
        forall|i: int| 0 <= i < before.tree.nodes.len() ==> #[trigger] after.tree.nodes[i]
            == before.tree.nodes[i],
    ensures
        after.wf(),
{
    assert forall|i: int| #![trigger after.context_snapshots[i]] 0 <= i
        < after.context_snapshots.len() implies after.tree.has(
        after.context_snapshots[i].owner_node_id,
    ) by {
        let id = after.context_snapshots[i].owner_node_id;
        assert(before.context_snapshots[i].owner_node_id == id);
        lemma_place(before.tree.nodes, id);
        lemma_place(after.tree.nodes, id);
        let j = place_of(before.tree.nodes, id)->0;
        assert(after.tree.nodes[j].id == id);
    }
}

} // verus!
