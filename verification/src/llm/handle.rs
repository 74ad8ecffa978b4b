//! What the user of a session sees of it, and may change while it runs.

use crate::double::Real;
use crate::json::Json;
use crate::llm::context_snapshot::{SnapshotView, TurnContextSnapshot};
use crate::llm::tree::{
    lemma_place, place_of, ConversationNode, ConversationTree, NodeView, TreeView,
};
use crate::llm::types::{
    ChatRequest, Message, MessageView, RequestView, ThinkingEffort, ThinkingType,
};
use crate::model::{duplicate_all, lemma_views_push, view_opt, views};
use crate::orchestrator::context::{ContextView, TaskContext};
use crate::text::{decimal, decimal_text, same_text};
use vstd::prelude::*;

verus! {

/// An order to a session that runs.
#[derive(Debug)]
pub enum CtrlMsg {
    /// Uses another plugin from the next turn on.
    SwitchPlugin { plugin_id: String, api_key: String },
    /// Moves the head.
    Checkout { node_id: u64 },
    /// Goes on with an answer that is not finished.
    Continue { node_id: u64 },
    /// Looks at the next request, without sending it.
    Preflight { pending_user_message: String },
    /// Takes in what the user said together with what is known at that moment.
    SubmitUserTurn { message: String, context: Option<TaskContext> },
}

/// What a session shares with its user.
#[derive(Debug)]
pub struct SessionHandle {
    pub request: ChatRequest,
    pub tree: ConversationTree,
    pub system_messages: Vec<Message>,
    pub context_snapshots: Vec<TurnContextSnapshot>,
    /// How often the user cancelled.
    pub cancel_count: u64,
    /// What the caller knows, as told last.
    pub context: TaskContext,
}

/// The shared state of a session.
#[verifier::ext_equal]
pub struct HandleView {
    pub request: RequestView,
    pub tree: TreeView,
    pub system_messages: Seq<MessageView>,
    pub context_snapshots: Seq<SnapshotView>,
    pub cancel_count: u64,
    pub context: ContextView,
}

impl View for SessionHandle {
    type V = HandleView;

    open spec fn view(&self) -> HandleView {
        HandleView {
            request: self.request@,
            tree: self.tree@,
            system_messages: views(self.system_messages@),
            context_snapshots: views(self.context_snapshots@),
            cancel_count: self.cancel_count,
            context: self.context@,
        }
    }
}

impl HandleView {
    /// With other parameters.
    pub open spec fn asking(self, request: RequestView) -> HandleView {
        HandleView { request, ..self }
    }

    /// The conversation: the parameters, the instructions, and what was said up to the head.
    pub open spec fn conversation(self) -> RequestView {
        self.request.with_messages(self.system_messages + self.tree.said())
    }

    /// The message with a number.
    pub open spec fn node(self, id: u64) -> Option<NodeView> {
        match place_of(self.tree.nodes, id) {
            Some(i) => Some(self.tree.nodes[i]),
            None => None,
        }
    }

    /// Why an answer cannot be gone on with, if it cannot.
    pub open spec fn continuation_error(self, id: u64) -> Option<Seq<char>> {
        if self.tree.head != Some(id) {
            Some("续写目标不是当前会话 head"@)
        } else {
            match self.node(id) {
                None => Some("续写节点 "@ + decimal(id as nat) + " 不存在"@),
                Some(n) => if n.message.role != "assistant"@ {
                    Some("续写目标必须是助手消息"@)
                } else {
                    None
                },
            }
        }
    }
}

impl SessionHandle {
    /// A session in which nothing was said.
    pub fn new() -> (r: SessionHandle)
        ensures
            r@.request == RequestView::blank(),
            r@.tree == (TreeView { nodes: Seq::empty(), head: None, next_id: 1 }),
            r@.tree.wf(),
            r@.system_messages == Seq::<MessageView>::empty(),
            r@.context_snapshots == Seq::<SnapshotView>::empty(),
            r@.cancel_count == 0,
            r@.context == ContextView::empty(),
    {
        let r: SessionHandle = SessionHandle {
            request: ChatRequest::default(),
            tree: ConversationTree::new(),
            system_messages: Vec::new(),
            context_snapshots: Vec::new(),
            cancel_count: 0,
            context: TaskContext::default(),
        };
        assert(r@.system_messages =~= Seq::<MessageView>::empty());
        assert(r@.context_snapshots =~= Seq::<SnapshotView>::empty());
        r
    }

    /// The conversation up to the head, with the parameters of its requests.
    pub fn get_conversation(&self) -> (r: ChatRequest)
        ensures
            r@ == self@.conversation(),
    {
        let mut messages: Vec<Message> = duplicate_all(&self.system_messages);
        let said: Vec<Message> = self.tree.linearize();
        let ghost front = views(self.system_messages@);
        let ghost back = views(said@);
        let mut i: usize = 0;
        assert(views(messages@) =~= front + back.take(0));
        while i < said.len()
            invariant
                i <= said@.len(),
                back == views(said@),
                views(messages@) == front + back.take(i as int),
            decreases said@.len() - i,
        {
            let copy: Message = said[i].clone();
            proof {
                lemma_views_push(messages@, copy);
                assert((front + back.take(i as int)).push(back[i as int]) =~= front + back.take(
                    i + 1,
                ));
            }
            messages.push(copy);
            i = i + 1;
        }
        assert(back.take(i as int) =~= back);
        let mut request: ChatRequest = self.request.clone();
        request.messages = messages;
        request
    }

    /// Says whether the model is to think.
    pub fn set_thinking(&mut self, enabled: bool)
        ensures
            final(self)@ == old(self)@.asking(
                RequestView {
                    thinking: Some(
                        if enabled {
                            "enabled"@
                        } else {
                            "disabled"@
                        },
                    ),
                    ..old(self)@.request
                },
            ),
    {
        self.request.thinking = Some(
            if enabled {
                ThinkingType::enabled()
            } else {
                ThinkingType::disabled()
            },
        );
    }

    /// Names the model.
    pub fn set_model(&mut self, model: &str)
        ensures
            final(self)@ == old(self)@.asking(
                RequestView { model: model@, ..old(self)@.request },
            ),
    {
        self.request.model = model.to_owned();
    }

    /// Sets the temperature.
    pub fn set_temperature(&mut self, v: Real)
        ensures
            final(self)@ == old(self)@.asking(
                RequestView { temperature: Some(v), ..old(self)@.request },
            ),
    {
        self.request.temperature = Some(v);
    }

    /// Says whether answers are streamed.
    pub fn set_stream(&mut self, v: bool)
        ensures
            final(self)@ == old(self)@.asking(
                RequestView { stream: Some(v), ..old(self)@.request },
            ),
    {
        self.request.stream = Some(v);
    }

    /// Sets the greatest length of an answer.
    pub fn set_max_tokens(&mut self, v: i64)
        ensures
            final(self)@ == old(self)@.asking(
                RequestView { max_tokens: Some(v), ..old(self)@.request },
            ),
    {
        self.request.max_tokens = Some(v);
    }

    /// Says how much the model is to think.
    pub fn set_thinking_effort(&mut self, effort: ThinkingEffort)
        ensures
            final(self)@ == old(self)@.asking(
                RequestView { thinking_effort: Some(effort@), ..old(self)@.request },
            ),
    {
        self.request.thinking_effort = Some(effort);
    }

    /// Leaves to the model how much it thinks.
    pub fn clear_thinking_effort(&mut self)
        ensures
            final(self)@ == old(self)@.asking(
                RequestView { thinking_effort: None, ..old(self)@.request },
            ),
    {
        self.request.thinking_effort = None;
    }

    /// Sets the penalty for frequent words.
    pub fn set_frequency_penalty(&mut self, v: Real)
        ensures
            final(self)@ == old(self)@.asking(
                RequestView { frequency_penalty: Some(v), ..old(self)@.request },
            ),
    {
        self.request.frequency_penalty = Some(v);
    }

    /// Sets the penalty for words that were used.
    pub fn set_presence_penalty(&mut self, v: Real)
        ensures
            final(self)@ == old(self)@.asking(
                RequestView { presence_penalty: Some(v), ..old(self)@.request },
            ),
    {
        self.request.presence_penalty = Some(v);
    }

    /// Sets the share of likely words that are considered.
    pub fn set_top_p(&mut self, v: Real)
        ensures
            final(self)@ == old(self)@.asking(
                RequestView { top_p: Some(v), ..old(self)@.request },
            ),
    {
        self.request.top_p = Some(v);
    }

    /// Sets the texts at which an answer stops.
    pub fn set_stop(&mut self, stop: Vec<String>)
        ensures
            final(self)@ == old(self)@.asking(
                RequestView { stop: Some(views(stop@)), ..old(self)@.request },
            ),
    {
        self.request.stop = Some(stop);
    }

    /// Sets the format of answers.
    pub fn set_response_format(&mut self, format: Json)
        ensures
            final(self)@ == old(self)@.asking(
                RequestView { response_format: Some(format@), ..old(self)@.request },
            ),
    {
        self.request.response_format = Some(format);
    }

    /// Sets how many answers are asked for.
    pub fn set_n(&mut self, n: i32)
        ensures
            final(self)@ == old(self)@.asking(
                RequestView { n: Some(n), ..old(self)@.request },
            ),
    {
        self.request.n = Some(n);
    }

    /// Says how the model chooses among the tools.
    pub fn set_tool_choice(&mut self, choice: &str)
        ensures
            final(self)@ == old(self)@.asking(
                RequestView { tool_choice: Some(choice@), ..old(self)@.request },
            ),
    {
        self.request.tool_choice = Some(choice.to_owned());
    }

    /// Says whether probabilities are told.
    pub fn set_logprobs(&mut self, v: bool)
        ensures
            final(self)@ == old(self)@.asking(
                RequestView { logprobs: Some(v), ..old(self)@.request },
            ),
    {
        self.request.logprobs = Some(v);
    }

    /// Says of how many words probabilities are told.
    pub fn set_top_logprobs(&mut self, n: i64)
        ensures
            final(self)@ == old(self)@.asking(
                RequestView { top_logprobs: Some(n), ..old(self)@.request },
            ),
    {
        self.request.top_logprobs = Some(n);
    }

    /// Moves the head to a given message. Tells whether the model is to answer at once, which it is
    /// where the message is one of the user.
    pub fn checkout(&mut self, node_id: u64) -> (r: Result<bool, String>)
        requires
            old(self)@.tree.wf(),
        ensures
            final(self)@.tree.wf(),
            match r {
                Ok(answers) => old(self)@.tree.has(node_id) && final(self)@ == (HandleView {
                    tree: TreeView { head: Some(node_id), ..old(self)@.tree },
                    ..old(self)@
                }) && answers == (old(self)@.node(node_id)->0.message.role == "user"@),
                Err(e) => !old(self)@.tree.has(node_id) && final(self)@ == old(self)@ && e@
                    == "节点 "@ + decimal(node_id as nat) + " 不存在"@,
            },
    {
        let answers: bool = match self.tree.get_node(node_id) {
            Some(n) => same_text(n.message.role.as_str(), "user"),
            None => false,
        };
        match self.tree.checkout(node_id) {
            Ok(_) => Ok(answers),
            Err(e) => Err(e),
        }
    }

    /// Whether an answer can be gone on with: it must be the head, and one of the model.
    pub fn continue_generation(&self, node_id: u64) -> (r: Result<(), String>)
        ensures
            match r {
                Ok(_) => self@.continuation_error(node_id) is None,
                Err(e) => self@.continuation_error(node_id) == Some(e@),
            },
    {
        let at_head: bool = match self.tree.head() {
            Some(h) => h == node_id,
            None => false,
        };
        if !at_head {
            return Err("续写目标不是当前会话 head".to_owned());
        }
        match self.tree.get_node(node_id) {
            None => {
                let mut e: String = "续写节点 ".to_owned();
                e.append(decimal_text(node_id).as_str());
                e.append(" 不存在");
                Err(e)
            },
            Some(n) => if same_text(n.message.role.as_str(), "assistant") {
                Ok(())
            } else {
                Err("续写目标必须是助手消息".to_owned())
            },
        }
    }

    /// All messages, of all branches.
    pub fn get_all_nodes(&self) -> (r: Vec<ConversationNode>)
        ensures
            views(r@) == self@.tree.nodes,
    {
        self.tree.all_nodes()
    }

    /// All messages and the head, of one moment.
    pub fn tree_snapshot(&self) -> (r: (Vec<ConversationNode>, Option<u64>))
        ensures
            views(r.0@) == self@.tree.nodes,
            r.1 == self@.tree.head,
    {
        (self.tree.all_nodes(), self.tree.head())
    }

    /// All messages, the head and all material, of one moment: what is to be stored.
    pub fn persistence_snapshot(&self) -> (r: (
        Vec<ConversationNode>,
        Option<u64>,
        Vec<TurnContextSnapshot>,
    ))
        ensures
            views(r.0@) == self@.tree.nodes,
            r.1 == self@.tree.head,
            views(r.2@) == self@.context_snapshots,
    {
        (self.tree.all_nodes(), self.tree.head(), duplicate_all(&self.context_snapshots))
    }

    /// All material, of all branches.
    pub fn get_context_snapshots(&self) -> (r: Vec<TurnContextSnapshot>)
        ensures
            views(r@) == self@.context_snapshots,
    {
        duplicate_all(&self.context_snapshots)
    }

    /// The message with a number.
    pub fn get_node(&self, id: u64) -> (r: Option<ConversationNode>)
        ensures
            view_opt(r) == self@.node(id),
    {
        match self.tree.get_node(id) {
            Some(n) => Some(n.clone()),
            None => None,
        }
    }

    /// The numbers of the messages that answer a given one.
    pub fn get_children(&self, node_id: u64) -> (r: Vec<u64>)
        ensures
            r@ == self@.tree.answers(node_id),
    {
        self.tree.children_of(node_id)
    }

    /// The head.
    pub fn head(&self) -> (r: Option<u64>)
        ensures
            r == self@.tree.head,
    {
        self.tree.head()
    }

    /// Cancels the turn under way.
    pub fn cancel(&mut self)
        ensures
            final(self)@ == (HandleView {
                cancel_count: ((old(self)@.cancel_count + 1) % 0x1_0000_0000_0000_0000) as u64,
                ..old(self)@
            }),
    {
        self.cancel_count = self.cancel_count.wrapping_add(1);
    }

    /// Whether the user cancelled since a count was read.
    pub fn cancelled_since(&self, count: u64) -> (r: bool)
        ensures
            r == (self@.cancel_count != count),
    {
        self.cancel_count != count
    }

    /// Tells what the caller knows, in place of what was told before.
    pub fn set_task_context(&mut self, context: TaskContext)
        ensures
            final(self)@ == (HandleView { context: context@, ..old(self)@ }),
    {
        self.context = context;
    }
}

/// Cancelling is noticed by everyone who read the count before.
pub proof fn lemma_cancel_noticed(count: u64)
    ensures
        (count + 1) % 0x1_0000_0000_0000_0000 != count,
{
}

/// An answer can be gone on with exactly where it is the head of a valid conversation and was given
/// by the model.
pub proof fn lemma_continuation(h: HandleView, id: u64)
    requires
        h.tree.wf(),
    ensures
        h.continuation_error(id) is None <==> h.tree.head == Some(id) && h.node(id)->0.message.role
            == "assistant"@,
{
}

/// Why an answer cannot be gone on with is told: that it is not the head, that there is no such
/// message, or that it is not one of the model.
pub proof fn lemma_why_not_continued(h: HandleView, id: u64)
    ensures
        h.tree.head != Some(id) ==> h.continuation_error(id) == Some("续写目标不是当前会话 head"@),
        h.tree.head == Some(id) && !h.tree.has(id) ==> h.continuation_error(id) == Some(
            "续写节点 "@ + decimal(id as nat) + " 不存在"@,
        ),
        h.tree.head == Some(id) && h.tree.has(id) && h.node(id)->0.message.role != "assistant"@
            ==> h.continuation_error(id) == Some("续写目标必须是助手消息"@),
{
}

/// A message is found under its number.
pub proof fn lemma_message_is_found(h: HandleView, i: int)
    requires
        h.tree.wf(),
        0 <= i < h.tree.nodes.len(),
    ensures
        h.node(h.tree.nodes[i].id) == Some(h.tree.nodes[i]),
{
    let id = h.tree.nodes[i].id;
    lemma_place(h.tree.nodes, id);
    let j = place_of(h.tree.nodes, id)->0;
    if j != i {
        assert(h.tree.nodes[j].id == h.tree.nodes[i].id);
    }
}

/// The conversation that is shown has the instructions in front and behind them all that was said
/// up to the head, with the parameters as they are.
pub proof fn lemma_conversation_is_shown(h: HandleView, i: int)
    ensures
        ({
            let n = h.system_messages.len();
            let c = h.conversation();
            &&& c.messages.len() == n + h.tree.branch().len()
            &&& 0 <= i < n ==> c.messages[i] == h.system_messages[i]
            &&& n <= i < c.messages.len() ==> c.messages[i] == h.tree.branch()[i - n].message
            &&& c == (RequestView { messages: c.messages, ..h.request })
        }),
{
}

} // verus!
