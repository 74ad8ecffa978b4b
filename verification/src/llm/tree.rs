//! The tree of a conversation: every message knows the one it answers, and one of them is the head.

use crate::llm::types::{Message, MessageView};
use crate::model::{duplicate_all, lemma_views_push, view_opt, views, Duplicate};
use crate::text::{decimal, decimal_text};
use vstd::prelude::*;

verus! {

/// A message of the tree.
#[derive(Debug)]
pub struct ConversationNode {
    pub id: u64,
    pub parent: Option<u64>,
    pub turn_id: u64,
    pub timestamp: String,
    pub message: Message,
}

/// What a message of the tree says.
#[verifier::ext_equal]
pub struct NodeView {
    pub id: u64,
    pub parent: Option<u64>,
    pub turn_id: u64,
    pub timestamp: Seq<char>,
    pub message: MessageView,
}

impl View for ConversationNode {
    type V = NodeView;

    open spec fn view(&self) -> NodeView {
        NodeView {
            id: self.id,
            parent: self.parent,
            turn_id: self.turn_id,
            timestamp: self.timestamp@,
            message: self.message@,
        }
    }
}

impl Clone for ConversationNode {
    fn clone(&self) -> (r: Self)
        ensures
            r@ == self@,
    {
        ConversationNode {
            id: self.id,
            parent: self.parent,
            turn_id: self.turn_id,
            timestamp: self.timestamp.clone(),
            message: self.message.clone(),
        }
    }
}

impl Duplicate for ConversationNode {
    fn duplicate(&self) -> (r: Self) {
        self.clone()
    }
}

/// A stored message. Without a number it follows the one stored before it.
#[derive(Debug)]
pub struct ConversationNodeSeed {
    pub node_id: Option<u64>,
    pub parent: Option<u64>,
    pub turn_id: Option<u64>,
    pub timestamp: Option<String>,
    pub message: Message,
}

/// A conversation.
#[derive(Debug)]
pub struct ConversationTree {
    nodes: Vec<ConversationNode>,
    head: Option<u64>,
    next_id: u64,
}

/// What a conversation says: its messages, each behind the one it answers, and the head.
#[verifier::ext_equal]
pub struct TreeView {
    pub nodes: Seq<NodeView>,
    pub head: Option<u64>,
    pub next_id: u64,
}

impl View for ConversationTree {
    type V = TreeView;

    closed spec fn view(&self) -> TreeView {
        TreeView { nodes: views(self.nodes@), head: self.head, next_id: self.next_id }
    }
}

/// The place of the message with a number.
pub open spec fn place_of(nodes: Seq<NodeView>, id: u64) -> Option<int>
    decreases nodes.len(),
{
    if nodes.len() == 0 {
        None
    } else if nodes.last().id == id {
        Some(nodes.len() - 1)
    } else {
        place_of(nodes.drop_last(), id)
    }
}

/// The places of the messages from the root to a given one.
pub open spec fn path_places(nodes: Seq<NodeView>, i: int) -> Seq<int>
    decreases i,
{
    match nodes[i].parent {
        Some(p) => match place_of(nodes, p) {
            Some(j) if 0 <= j < i => path_places(nodes, j).push(i),
            _ => seq![i],
        },
        None => seq![i],
    }
}

impl TreeView {
    /// Whether a number names a message.
    pub open spec fn has(self, id: u64) -> bool {
        place_of(self.nodes, id) is Some
    }

    /// Numbers are unique and below the next one, every message comes after the one it answers, and
    /// the head is a message.
    pub open spec fn wf(self) -> bool {
        &&& forall|i: int, j: int| #![trigger self.nodes[i], self.nodes[j]]
            0 <= i < j < self.nodes.len() ==> self.nodes[i].id != self.nodes[j].id
        &&& forall|i: int| #![trigger self.nodes[i]]
            0 <= i < self.nodes.len() ==> self.nodes[i].id < self.next_id || self.next_id
                == u64::MAX
        &&& forall|i: int| #![trigger self.nodes[i]]
            0 <= i < self.nodes.len() ==> {
                ||| self.nodes[i].parent is None
                ||| exists|j: int| #![trigger self.nodes[j]]
                    0 <= j < i && self.nodes[j].id == self.nodes[i].parent->0
            }
        &&& self.head is Some ==> self.has(self.head->0)
    }

    /// The places of the messages from the root to the head.
    pub open spec fn head_places(self) -> Seq<int> {
        match self.head {
            Some(h) => match place_of(self.nodes, h) {
                Some(i) => path_places(self.nodes, i),
                None => Seq::empty(),
            },
            None => Seq::empty(),
        }
    }

    /// The messages from the root to the head.
    pub open spec fn branch(self) -> Seq<NodeView> {
        let p = self.head_places();
        Seq::new(p.len(), |k: int| self.nodes[p[k]])
    }

    /// The numbers of the messages from the root to the head.
    pub open spec fn head_path(self) -> Seq<u64> {
        let b = self.branch();
        Seq::new(b.len(), |k: int| b[k].id)
    }

    /// What was said from the root to the head.
    pub open spec fn said(self) -> Seq<MessageView> {
        let b = self.branch();
        Seq::new(b.len(), |k: int| b[k].message)
    }

    /// The messages that answer a given one.
    pub open spec fn answers(self, id: u64) -> Seq<u64> {
        answers_among(self.nodes, id)
    }

    /// With one more message behind the head.
    pub open spec fn appended(self, message: MessageView, turn_id: u64, timestamp: Seq<char>) -> TreeView {
        TreeView {
            nodes: self.nodes.push(
                NodeView {
                    id: self.next_id,
                    parent: self.head,
                    turn_id,
                    timestamp,
                    message,
                },
            ),
            head: Some(self.next_id),
            next_id: (self.next_id + 1) as u64,
        }
    }
}

/// The messages among given ones that answer a given one.
pub open spec fn answers_among(nodes: Seq<NodeView>, id: u64) -> Seq<u64>
    decreases nodes.len(),
{
    if nodes.len() == 0 {
        Seq::empty()
    } else if nodes.last().parent == Some(id) {
        answers_among(nodes.drop_last(), id).push(nodes.last().id)
    } else {
        answers_among(nodes.drop_last(), id)
    }
}

/// A place found holds the number; where none is found, no message has it.
pub proof fn lemma_place(nodes: Seq<NodeView>, id: u64)
    ensures
        match place_of(nodes, id) {
            Some(i) => 0 <= i < nodes.len() && nodes[i].id == id,
            None => forall|j: int| 0 <= j < nodes.len() ==> (#[trigger] nodes[j]).id != id,
        },
    decreases nodes.len(),
{
    if nodes.len() > 0 && nodes.last().id != id {
        lemma_place(nodes.drop_last(), id);
        assert(forall|j: int|
            0 <= j < nodes.len() - 1 ==> #[trigger] nodes[j] == nodes.drop_last()[j]);
    }
}

/// A path leads upwards from a message to one that answers nothing.
pub proof fn lemma_path(nodes: Seq<NodeView>, i: int)
    requires
        0 <= i < nodes.len(),
    ensures
        path_places(nodes, i).len() > 0,
        path_places(nodes, i).last() == i,
        forall|k: int| #![trigger path_places(nodes, i)[k]]
            0 <= k < path_places(nodes, i).len() ==> 0 <= path_places(nodes, i)[k] <= i,
        path_places(nodes, i).len() <= i + 1,
    decreases i,
{
    match nodes[i].parent {
        Some(p) => match place_of(nodes, p) {
            Some(j) if 0 <= j < i => {
                lemma_path(nodes, j);
                let q = path_places(nodes, j);
                assert forall|k: int| #![trigger path_places(nodes, i)[k]] 0 <= k < path_places(
                    nodes,
                    i,
                ).len() implies 0 <= path_places(nodes, i)[k] <= i by {
                    if k < q.len() {
                        assert(path_places(nodes, i)[k] == q[k]);
                    }
                }
            },
            _ => {},
        },
        None => {},
    }
}

impl ConversationTree {
    /// A conversation without messages.
    pub fn new() -> (r: ConversationTree)
        ensures
            r@ == (TreeView { nodes: Seq::empty(), head: None, next_id: 1 }),
            r@.wf(),
    {
        let r: ConversationTree = ConversationTree { nodes: Vec::new(), head: None, next_id: 1 };
        assert(r@.nodes =~= Seq::<NodeView>::empty());
        r
    }

    fn find(&self, id: u64) -> (r: Option<usize>)
        ensures
            match r {
                Some(i) => place_of(self@.nodes, id) == Some(i as int) && i < self@.nodes.len(),
                None => place_of(self@.nodes, id) is None,
            },
    {
        let ghost s = self@.nodes;
        let mut n: usize = self.nodes.len();
        assert(s.take(n as int) =~= s);
        while n > 0
            invariant
                n <= self.nodes@.len(),
                s == views(self.nodes@),
                place_of(s, id) == place_of(s.take(n as int), id),
            decreases n,
        {
            proof {
                assert(s.take(n as int).drop_last() =~= s.take(n - 1));
                assert(s.take(n as int).last() == self.nodes@[n - 1]@);
            }
            if self.nodes[n - 1].id == id {
                return Some(n - 1);
            }
            n = n - 1;
        }
        None
    }

    /// The head.
    pub fn head(&self) -> (r: Option<u64>)
        ensures
            r == self@.head,
    {
        self.head
    }

    /// The message with a number.
    pub fn get_node(&self, id: u64) -> (r: Option<&ConversationNode>)
        ensures
            match r {
                Some(n) => self@.has(id) && n@ == self@.nodes[place_of(self@.nodes, id)->0] && n.id
                    == id,
                None => !self@.has(id),
            },
    {
        proof {
            lemma_place(self@.nodes, id);
        }
        match self.find(id) {
            Some(i) => {
                assert(self@.nodes[i as int] == self.nodes@[i as int]@);
                Some(&self.nodes[i])
            },
            None => None,
        }
    }

    /// All messages, of all branches.
    pub fn all_nodes(&self) -> (r: Vec<ConversationNode>)
        ensures
            views(r@) == self@.nodes,
    {
        duplicate_all(&self.nodes)
    }

    /// The numbers of the messages that answer a given one.
    pub fn children_of(&self, id: u64) -> (r: Vec<u64>)
        ensures
            r@ == self@.answers(id),
    {
        let ghost s = self@.nodes;
        let mut r: Vec<u64> = Vec::new();
        let mut i: usize = 0;
        assert(s.take(0) =~= Seq::<NodeView>::empty());
        while i < self.nodes.len()
            invariant
                i <= self.nodes@.len(),
                s == views(self.nodes@),
                r@ == answers_among(s.take(i as int), id),
            decreases self.nodes@.len() - i,
        {
            proof {
                assert(s.take(i + 1).drop_last() =~= s.take(i as int));
                assert(s.take(i + 1).last() == self.nodes@[i as int]@);
            }
            let answers: bool = match self.nodes[i].parent {
                Some(p) => p == id,
                None => false,
            };
            if answers {
                r.push(self.nodes[i].id);
            }
            i = i + 1;
        }
        assert(s.take(i as int) =~= s);
        r
    }

    /// The places of the messages from the root to a given one, that one first.
    fn climb(&self, from: usize) -> (r: Vec<usize>)
        requires
            from < self@.nodes.len(),
        ensures
            r@.len() == path_places(self@.nodes, from as int).len(),
            forall|k: int| #![trigger r@[k]]
                0 <= k < r@.len() ==> r@[k] < self@.nodes.len() && r@[k] == path_places(
                    self@.nodes,
                    from as int,
                )[r@.len() - 1 - k],
    {
        let ghost s = self@.nodes;
        let ghost whole = path_places(s, from as int);
        let mut r: Vec<usize> = Vec::new();
        let mut at: usize = from;
        let mut going: bool = true;
        let ghost mut left = whole;
        proof {
            lemma_path(s, from as int);
        }
        while going
            invariant
                s == views(self.nodes@),
                at < s.len(),
                whole == path_places(s, from as int),
                r@.len() + left.len() == whole.len(),
                going ==> left == path_places(s, at as int),
                !going ==> left.len() == 0,
                left == whole.take(left.len() as int),
                forall|k: int| #![trigger r@[k]]
                    0 <= k < r@.len() ==> r@[k] < s.len() && r@[k] == whole[whole.len() - 1 - k],
            decreases left.len(), if going { 1int } else { 0int },
        {
            proof {
                lemma_path(s, at as int);
                assert(s[at as int] == self.nodes@[at as int]@);
                assert(left.last() == whole[left.len() - 1]);
            }
            let ghost before = r@;
            r.push(at);
            assert(forall|k: int| 0 <= k < before.len() ==> #[trigger] r@[k] == before[k]);
            let next: Option<usize> = match self.nodes[at].parent {
                Some(p) => match self.find(p) {
                    Some(j) => if j < at {
                        Some(j)
                    } else {
                        None
                    },
                    None => None,
                },
                None => None,
            };
            match next {
                Some(j) => {
                    proof {
                        left = path_places(s, j as int);
                        assert(path_places(s, at as int).drop_last() =~= left);
                        assert(left =~= whole.take(left.len() as int));
                    }
                    at = j;
                },
                None => {
                    proof {
                        left = Seq::empty();
                        assert(whole.take(0) =~= left);
                    }
                    going = false;
                },
            }
        }
        r
    }

    /// The places of the messages from the root to the head.
    fn branch_places(&self) -> (r: Vec<usize>)
        ensures
            r@.len() == self@.head_places().len(),
            forall|k: int| #![trigger r@[k]]
                0 <= k < r@.len() ==> r@[k] < self@.nodes.len() && r@[k]
                    == self@.head_places()[k],
    {
        let mut r: Vec<usize> = Vec::new();
        let up: Vec<usize> = match self.head {
            Some(h) => match self.find(h) {
                Some(i) => self.climb(i),
                None => Vec::new(),
            },
            None => Vec::new(),
        };
        let n: usize = up.len();
        let mut k: usize = 0;
        while k < n
            invariant
                k <= n == up@.len(),
                n == self@.head_places().len(),
                r@.len() == k,
                forall|j: int| #![trigger up@[j]]
                    0 <= j < n ==> up@[j] < self@.nodes.len() && up@[j]
                        == self@.head_places()[n - 1 - j],
                forall|j: int| #![trigger r@[j]]
                    0 <= j < k ==> r@[j] < self@.nodes.len() && r@[j] == self@.head_places()[j],
            decreases n - k,
        {
            let ghost before = r@;
            let i: usize = up[n - 1 - k];
            r.push(i);
            assert(forall|j: int| 0 <= j < before.len() ==> #[trigger] r@[j] == before[j]);
            k = k + 1;
        }
        r
    }

    /// The numbers of the messages from the root to the head.
    pub fn path_to_head(&self) -> (r: Vec<u64>)
        ensures
            r@ == self@.head_path(),
    {
        let places: Vec<usize> = self.branch_places();
        let mut r: Vec<u64> = Vec::new();
        let mut k: usize = 0;
        while k < places.len()
            invariant
                k <= places@.len() == self@.head_places().len(),
                r@ == self@.head_path().take(k as int),
                forall|j: int| #![trigger places@[j]]
                    0 <= j < places@.len() ==> places@[j] < self@.nodes.len() && places@[j]
                        == self@.head_places()[j],
            decreases places@.len() - k,
        {
            let i: usize = places[k];
            assert(self@.nodes[i as int] == self.nodes@[i as int]@);
            r.push(self.nodes[i].id);
            k = k + 1;
            assert(r@ =~= self@.head_path().take(k as int));
        }
        assert(r@ =~= self@.head_path());
        r
    }

    /// The messages from the root to the head.
    pub fn branch(&self) -> (r: Vec<ConversationNode>)
        ensures
            views(r@) == self@.branch(),
    {
        let places: Vec<usize> = self.branch_places();
        let mut r: Vec<ConversationNode> = Vec::new();
        let mut k: usize = 0;
        assert(views(r@) =~= self@.branch().take(0));
        while k < places.len()
            invariant
                k <= places@.len() == self@.head_places().len(),
                views(r@) == self@.branch().take(k as int),
                forall|j: int| #![trigger places@[j]]
                    0 <= j < places@.len() ==> places@[j] < self@.nodes.len() && places@[j]
                        == self@.head_places()[j],
            decreases places@.len() - k,
        {
            let i: usize = places[k];
            assert(self@.nodes[i as int] == self.nodes@[i as int]@);
            let node: ConversationNode = self.nodes[i].clone();
            proof {
                lemma_views_push(r@, node);
            }
            r.push(node);
            k = k + 1;
            assert(self@.branch().take(k as int) =~= self@.branch().take(k - 1).push(
                self@.branch()[k - 1],
            ));
        }
        assert(self@.branch().take(k as int) =~= self@.branch());
        r
    }

    /// What was said from the root to the head.
    pub fn linearize(&self) -> (r: Vec<Message>)
        ensures
            views(r@) == self@.said(),
    {
        let nodes: Vec<ConversationNode> = self.branch();
        let ghost b = self@.branch();
        let mut r: Vec<Message> = Vec::new();
        let mut k: usize = 0;
        assert(views(r@) =~= self@.said().take(0));
        while k < nodes.len()
            invariant
                k <= nodes@.len(),
                views(nodes@) == b,
                b == self@.branch(),
                views(r@) == self@.said().take(k as int),
            decreases nodes@.len() - k,
        {
            assert(b[k as int] == nodes@[k as int]@);
            let message: Message = nodes[k].message.clone();
            proof {
                lemma_views_push(r@, message);
            }
            r.push(message);
            k = k + 1;
            assert(self@.said().take(k as int) =~= self@.said().take(k - 1).push(
                self@.said()[k - 1],
            ));
        }
        assert(self@.said().take(k as int) =~= self@.said());
        r
    }

    /// Adds a message behind the head, which becomes the head. `None` where the numbers are used
    /// up.
    pub fn append(&mut self, message: Message, turn_id: u64, timestamp: &str) -> (r: Option<u64>)
        requires
            old(self)@.wf(),
        ensures
            final(self)@.wf(),
            match r {
                Some(id) => id == old(self)@.next_id && old(self)@.next_id < u64::MAX
                    && final(self)@ == old(self)@.appended(message@, turn_id, timestamp@),
                None => old(self)@.next_id == u64::MAX && final(self)@ == old(self)@,
            },
    {
        if self.next_id == u64::MAX {
            return None;
        }
        let id: u64 = self.next_id;
        let node: ConversationNode = ConversationNode {
            id,
            parent: self.head,
            turn_id,
            timestamp: timestamp.to_owned(),
            message,
        };
        let ghost before = self@;
        proof {
            lemma_views_push(self.nodes@, node);
            if before.head is Some {
                lemma_place(before.nodes, before.head->0);
            }
        }
        self.nodes.push(node);
        self.head = Some(id);
        self.next_id = id + 1;
        proof {
            let after = self@;
            assert(after.nodes == before.nodes.push(node@));
            lemma_place(after.nodes, id);
            assert(after.has(id)) by {
                assert(after.nodes[before.nodes.len() as int].id == id);
            }
            assert forall|i: int| #![trigger after.nodes[i]] 0 <= i < after.nodes.len() implies {
                ||| after.nodes[i].parent is None
                ||| exists|j: int| #![trigger after.nodes[j]]
                    0 <= j < i && after.nodes[j].id == after.nodes[i].parent->0
            } by {
                if i < before.nodes.len() {
                    assert(after.nodes[i] == before.nodes[i]);
                    if before.nodes[i].parent is Some {
                        let j = choose|j: int| #![trigger before.nodes[j]]
                            0 <= j < i && before.nodes[j].id == before.nodes[i].parent->0;
                        assert(after.nodes[j] == before.nodes[j]);
                    }
                } else if before.head is Some {
                    let j = place_of(before.nodes, before.head->0)->0;
                    assert(after.nodes[j] == before.nodes[j]);
                }
            }
            assert forall|i: int, j: int| #![trigger after.nodes[i], after.nodes[j]]
                0 <= i < j < after.nodes.len() implies after.nodes[i].id != after.nodes[j].id by {
                assert(after.nodes[i] == before.nodes[i]);
                if j < before.nodes.len() {
                    assert(after.nodes[j] == before.nodes[j]);
                }
            }
            assert forall|i: int| #![trigger after.nodes[i]] 0 <= i < after.nodes.len() implies
                after.nodes[i].id < after.next_id || after.next_id == u64::MAX by {
                if i < before.nodes.len() {
                    assert(after.nodes[i] == before.nodes[i]);
                }
            }
        }
        Some(id)
    }

    /// Moves the head to a given message.
    pub fn checkout(&mut self, node_id: u64) -> (r: Result<(), String>)
        requires
            old(self)@.wf(),
        ensures
            final(self)@.wf(),
            match r {
                Ok(_) => old(self)@.has(node_id) && final(self)@ == (TreeView {
                    head: Some(node_id),
                    ..old(self)@
                }),
                Err(e) => !old(self)@.has(node_id) && final(self)@ == old(self)@ && e@ == "节点 "@
                    + decimal(node_id as nat) + " 不存在"@,
            },
    {
        match self.find(node_id) {
            Some(_) => {
                self.head = Some(node_id);
                Ok(())
            },
            None => {
                let mut e: String = "节点 ".to_owned();
                e.append(decimal_text(node_id).as_str());
                e.append(" 不存在");
                Err(e)
            },
        }
    }
}

/// What a stored message says.
#[verifier::ext_equal]
pub struct SeedView {
    pub node_id: Option<u64>,
    pub parent: Option<u64>,
    pub turn_id: Option<u64>,
    pub timestamp: Option<Seq<char>>,
    pub message: MessageView,
}

impl View for ConversationNodeSeed {
    type V = SeedView;

    open spec fn view(&self) -> SeedView {
        SeedView {
            node_id: self.node_id,
            parent: self.parent,
            turn_id: self.turn_id,
            timestamp: view_opt(self.timestamp),
            message: self.message@,
        }
    }
}

/// The first number above those that stored messages have.
pub open spec fn first_free(seeds: Seq<SeedView>) -> u64
    decreases seeds.len(),
{
    if seeds.len() == 0 {
        1
    } else {
        let n = first_free(seeds.drop_last());
        match seeds.last().node_id {
            Some(id) if id >= n => if id == u64::MAX {
                u64::MAX
            } else {
                (id + 1) as u64
            },
            _ => n,
        }
    }
}

/// Messages that have their numbers, and the next number.
#[verifier::ext_equal]
pub struct Numbering {
    pub nodes: Seq<NodeView>,
    pub next: u64,
}

impl Numbering {
    /// With one more stored message. One whose number is taken is left out; one without a number
    /// gets the next, and follows the message before it unless it says otherwise.
    pub open spec fn with(self, seed: SeedView) -> Numbering {
        let node = NodeView {
            id: match seed.node_id {
                Some(id) => id,
                None => self.next,
            },
            parent: match (seed.node_id, seed.parent) {
                (None, None) => if self.nodes.len() > 0 {
                    Some(self.nodes.last().id)
                } else {
                    None
                },
                (_, p) => p,
            },
            turn_id: match seed.turn_id {
                Some(t) => t,
                None => 0,
            },
            timestamp: match seed.timestamp {
                Some(t) => t,
                None => Seq::empty(),
            },
            message: seed.message,
        };
        match seed.node_id {
            Some(id) => if place_of(self.nodes, id) is Some {
                self
            } else {
                Numbering { nodes: self.nodes.push(node), ..self }
            },
            None => if self.next == u64::MAX {
                self
            } else {
                Numbering { nodes: self.nodes.push(node), next: (self.next + 1) as u64 }
            },
        }
    }
}

/// Stored messages with their numbers, where `next` is free.
pub open spec fn numbered(seeds: Seq<SeedView>, next: u64) -> Numbering
    decreases seeds.len(),
{
    if seeds.len() == 0 {
        Numbering { nodes: Seq::empty(), next }
    } else {
        numbered(seeds.drop_last(), next).with(seeds.last())
    }
}

/// Whether a message can be put behind those that are in place: it answers none that is still to
/// come.
pub open spec fn ready(rest: Seq<NodeView>, n: NodeView) -> bool {
    n.parent is None || place_of(rest, n.parent->0) is None
}

/// The place of the first message that can be put in place; the first of all where there is none.
pub open spec fn first_ready(rest: Seq<NodeView>, from: int) -> int
    decreases rest.len() - from,
{
    if from >= rest.len() || from < 0 {
        0
    } else if ready(rest, rest[from]) {
        from
    } else {
        first_ready(rest, from + 1)
    }
}

/// A message put behind those in place: it answers nothing where what it answers is not among them.
pub open spec fn settled(placed: Seq<NodeView>, n: NodeView) -> NodeView {
    if n.parent is Some && place_of(placed, n.parent->0) is None {
        NodeView { parent: None, ..n }
    } else {
        n
    }
}

/// Messages put in place one by one, each behind the one it answers. Where messages answer each
/// other in a circle, the first of them answers nothing.
pub open spec fn in_place(placed: Seq<NodeView>, rest: Seq<NodeView>) -> Seq<NodeView>
    decreases rest.len(),
{
    if rest.len() == 0 {
        placed
    } else {
        let k = first_ready(rest, 0);
        if 0 <= k < rest.len() {
            in_place(placed.push(settled(placed, rest[k])), rest.remove(k))
        } else {
            placed
        }
    }
}

/// A conversation made of stored messages.
pub open spec fn preloaded(seeds: Seq<SeedView>, head: Option<u64>) -> TreeView {
    let n = numbered(seeds, first_free(seeds));
    let nodes = in_place(Seq::empty(), n.nodes);
    TreeView {
        nodes,
        head: if head is Some && place_of(n.nodes, head->0) is Some {
            head
        } else if n.nodes.len() > 0 {
            Some(n.nodes.last().id)
        } else {
            None
        },
        next_id: n.next,
    }
}

fn find_id(nodes: &Vec<ConversationNode>, id: u64) -> (r: bool)
    ensures
        r == (place_of(views(nodes@), id) is Some),
{
    let ghost s = views(nodes@);
    let mut n: usize = nodes.len();
    assert(s.take(n as int) =~= s);
    while n > 0
        invariant
            n <= nodes@.len(),
            s == views(nodes@),
            place_of(s, id) == place_of(s.take(n as int), id),
        decreases n,
    {
        proof {
            assert(s.take(n as int).drop_last() =~= s.take(n - 1));
            assert(s.take(n as int).last() == nodes@[n - 1]@);
        }
        if nodes[n - 1].id == id {
            return true;
        }
        n = n - 1;
    }
    false
}

fn free_number(seeds: &Vec<ConversationNodeSeed>) -> (r: u64)
    ensures
        r == first_free(views(seeds@)),
{
    let ghost s = views(seeds@);
    let mut next: u64 = 1;
    let mut i: usize = 0;
    assert(s.take(0) =~= Seq::<SeedView>::empty());
    while i < seeds.len()
        invariant
            i <= seeds@.len(),
            s == views(seeds@),
            next == first_free(s.take(i as int)),
        decreases seeds@.len() - i,
    {
        proof {
            assert(s.take(i + 1).drop_last() =~= s.take(i as int));
            assert(s.take(i + 1).last() == seeds@[i as int]@);
        }
        match seeds[i].node_id {
            Some(id) => {
                if id >= next {
                    next =
                    if id == u64::MAX {
                        u64::MAX
                    } else {
                        id + 1
                    };
                }
            },
            None => {},
        }
        i = i + 1;
    }
    assert(s.take(i as int) =~= s);
    next
}

fn number_nodes(seeds: &Vec<ConversationNodeSeed>, free: u64) -> (r: (Vec<ConversationNode>, u64))
    ensures
        views(r.0@) == numbered(views(seeds@), free).nodes,
        r.1 == numbered(views(seeds@), free).next,
{
    let ghost s = views(seeds@);
    let mut nodes: Vec<ConversationNode> = Vec::new();
    let mut next: u64 = free;
    let mut i: usize = 0;
    assert(s.take(0) =~= Seq::<SeedView>::empty());
    assert(views(nodes@) =~= Seq::<NodeView>::empty());
    while i < seeds.len()
        invariant
            i <= seeds@.len(),
            s == views(seeds@),
            views(nodes@) == numbered(s.take(i as int), free).nodes,
            next == numbered(s.take(i as int), free).next,
        decreases seeds@.len() - i,
    {
        let seed: &ConversationNodeSeed = &seeds[i];
        proof {
            assert(s.take(i + 1).drop_last() =~= s.take(i as int));
            assert(s.take(i + 1).last() == seed@);
        }
        let ghost before = Numbering { nodes: views(nodes@), next };
        let n: usize = nodes.len();
        let (id, parent, taken): (u64, Option<u64>, bool) = match seed.node_id {
            Some(id) => (id, seed.parent, find_id(&nodes, id)),
            None => (
                next,
                match seed.parent {
                    Some(p) => Some(p),
                    None => if n > 0 {
                        assert(before.nodes.last() == nodes@[n - 1]@);
                        Some(nodes[n - 1].id)
                    } else {
                        None
                    },
                },
                next == u64::MAX,
            ),
        };
        if !taken {
            let node: ConversationNode = ConversationNode {
                id,
                parent,
                turn_id: match seed.turn_id {
                    Some(t) => t,
                    None => 0,
                },
                timestamp: match &seed.timestamp {
                    Some(t) => t.clone(),
                    None => String::new(),
                },
                message: seed.message.clone(),
            };
            proof {
                lemma_views_push(nodes@, node);
            }
            nodes.push(node);
            if seed.node_id.is_none() {
                next = next + 1;
            }
        }
        assert((Numbering { nodes: views(nodes@), next }) =~= before.with(seed@));
        i = i + 1;
    }
    assert(s.take(i as int) =~= s);
    (nodes, next)
}

fn find_ready(rest: &Vec<ConversationNode>) -> (r: usize)
    requires
        rest@.len() > 0,
    ensures
        r == first_ready(views(rest@), 0),
        r < rest@.len(),
{
    let ghost s = views(rest@);
    let mut i: usize = 0;
    while i < rest.len()
        invariant
            i <= rest@.len(),
            rest@.len() > 0,
            s == views(rest@),
            first_ready(s, 0) == first_ready(s, i as int),
        decreases rest@.len() - i,
    {
        assert(s[i as int] == rest@[i as int]@);
        let waits: bool = match rest[i].parent {
            Some(p) => find_id(rest, p),
            None => false,
        };
        if !waits {
            return i;
        }
        i = i + 1;
    }
    0
}

fn put_in_place(nodes: Vec<ConversationNode>) -> (r: Vec<ConversationNode>)
    ensures
        views(r@) == in_place(Seq::empty(), views(nodes@)),
{
    let mut rest: Vec<ConversationNode> = nodes;
    let mut placed: Vec<ConversationNode> = Vec::new();
    assert(views(placed@) =~= Seq::<NodeView>::empty());
    while rest.len() > 0
        invariant
            in_place(views(placed@), views(rest@)) == in_place(Seq::empty(), views(nodes@)),
        decreases rest@.len(),
    {
        let k: usize = find_ready(&rest);
        let ghost before = rest@;
        let mut node: ConversationNode = rest.remove(k);
        proof {
            assert(views(rest@) =~= views(before).remove(k as int));
            assert(views(before)[k as int] == node@);
        }
        let ghost original = node@;
        let lost: bool = match node.parent {
            Some(p) => !find_id(&placed, p),
            None => false,
        };
        if lost {
            node.parent = None;
        }
        proof {
            assert(node@ =~= settled(views(placed@), original));
            lemma_views_push(placed@, node);
        }
        placed.push(node);
    }
    placed
}

impl TreeView {
    /// The validity of nodes alone.
    pub open spec fn nodes_wf(nodes: Seq<NodeView>) -> bool {
        &&& forall|i: int, j: int| #![trigger nodes[i], nodes[j]]
            0 <= i < j < nodes.len() ==> nodes[i].id != nodes[j].id
        &&& forall|i: int| #![trigger nodes[i]]
            0 <= i < nodes.len() ==> {
                ||| nodes[i].parent is None
                ||| exists|j: int| #![trigger nodes[j]]
                    0 <= j < i && nodes[j].id == nodes[i].parent->0
            }
    }
}

/// Whether numbers are unique.
pub open spec fn unique_ids(nodes: Seq<NodeView>) -> bool {
    forall|i: int, j: int| #![trigger nodes[i], nodes[j]]
        0 <= i < j < nodes.len() ==> nodes[i].id != nodes[j].id
}

proof fn lemma_numbered(seeds: Seq<SeedView>, free: u64)
    requires
        free >= first_free(seeds),
    ensures
        ({
            let n = numbered(seeds, free);
            &&& unique_ids(n.nodes)
            &&& n.next >= free
            &&& forall|i: int| #![trigger n.nodes[i]]
                0 <= i < n.nodes.len() ==> n.nodes[i].id < n.next || n.next == u64::MAX
        }),
    decreases seeds.len(),
{
    if seeds.len() > 0 {
        let earlier = seeds.drop_last();
        lemma_numbered(earlier, free);
        let a = numbered(earlier, free);
        let b = numbered(seeds, free);
        lemma_place(
            a.nodes,
            match seeds.last().node_id {
                Some(id) => id,
                None => a.next,
            },
        );
        if b.nodes.len() > a.nodes.len() {
            let n = a.nodes.len() as int;
            assert forall|i: int, j: int| #![trigger b.nodes[i], b.nodes[j]]
                0 <= i < j < b.nodes.len() implies b.nodes[i].id != b.nodes[j].id by {
                assert(b.nodes[i] == a.nodes[i]);
                if j < n {
                    assert(b.nodes[j] == a.nodes[j]);
                }
            }
            assert forall|i: int| #![trigger b.nodes[i]] 0 <= i < b.nodes.len() implies b.nodes[i].id
                < b.next || b.next == u64::MAX by {
                if i < n {
                    assert(b.nodes[i] == a.nodes[i]);
                }
            }
        }
    }
}

/// Whether messages in place and messages still to come have different numbers.
spec fn apart(placed: Seq<NodeView>, rest: Seq<NodeView>) -> bool {
    forall|i: int, j: int| #![trigger placed[i], rest[j]]
        0 <= i < placed.len() && 0 <= j < rest.len() ==> placed[i].id != rest[j].id
}

proof fn lemma_first_ready(rest: Seq<NodeView>, from: int)
    requires
        0 <= from <= rest.len(),
        rest.len() > 0,
    ensures
        0 <= first_ready(rest, from) < rest.len(),
    decreases rest.len() - from,
{
    if from < rest.len() && !ready(rest, rest[from]) {
        lemma_first_ready(rest, from + 1);
    }
}

/// Putting messages in place keeps each of them, once and with its content.
proof fn lemma_in_place(placed: Seq<NodeView>, rest: Seq<NodeView>, bound: u64)
    requires
        TreeView::nodes_wf(placed),
        unique_ids(rest),
        apart(placed, rest),
        forall|i: int| #![trigger placed[i]]
            0 <= i < placed.len() ==> placed[i].id < bound || bound == u64::MAX,
        forall|i: int| #![trigger rest[i]]
            0 <= i < rest.len() ==> rest[i].id < bound || bound == u64::MAX,
    ensures
        ({
            let r = in_place(placed, rest);
            &&& TreeView::nodes_wf(r)
            &&& r.len() == placed.len() + rest.len()
            &&& forall|i: int| #![trigger r[i]]
                0 <= i < r.len() ==> r[i].id < bound || bound == u64::MAX
            &&& forall|id: u64| #![trigger place_of(r, id)]
                place_of(r, id) is Some <==> place_of(placed, id) is Some || place_of(rest, id)
                    is Some
        }),
    decreases rest.len(),
{
    if rest.len() == 0 {
        assert forall|id: u64| place_of(rest, id) is None by {}
    } else {
        lemma_first_ready(rest, 0);
        let k = first_ready(rest, 0);
        let n = settled(placed, rest[k]);
        let p2 = placed.push(n);
        let r2 = rest.remove(k);
        assert forall|j: int| 0 <= j < r2.len() implies #[trigger] r2[j] == rest[if j < k {
            j
        } else {
            j + 1
        }] by {}
        if rest[k].parent is Some {
            lemma_place(placed, rest[k].parent->0);
        }
        assert(TreeView::nodes_wf(p2)) by {
            assert forall|i: int, j: int| #![trigger p2[i], p2[j]] 0 <= i < j < p2.len() implies
                p2[i].id != p2[j].id by {
                assert(p2[i] == placed[i]);
                if j < placed.len() {
                    assert(p2[j] == placed[j]);
                } else {
                    assert(rest[k].id == n.id);
                }
            }
            assert forall|i: int| #![trigger p2[i]] 0 <= i < p2.len() implies {
                ||| p2[i].parent is None
                ||| exists|j: int| #![trigger p2[j]]
                    0 <= j < i && p2[j].id == p2[i].parent->0
            } by {
                if i < placed.len() {
                    assert(p2[i] == placed[i]);
                    if placed[i].parent is Some {
                        let j = choose|j: int| #![trigger placed[j]]
                            0 <= j < i && placed[j].id == placed[i].parent->0;
                        assert(p2[j] == placed[j]);
                    }
                } else if n.parent is Some {
                    let j = place_of(placed, n.parent->0)->0;
                    assert(p2[j] == placed[j]);
                }
            }
        }
        assert(unique_ids(r2)) by {
            assert forall|i: int, j: int| #![trigger r2[i], r2[j]] 0 <= i < j < r2.len() implies
                r2[i].id != r2[j].id by {
                let x = if i < k {
                    i
                } else {
                    i + 1
                };
                let y = if j < k {
                    j
                } else {
                    j + 1
                };
                assert(r2[i] == rest[x] && r2[j] == rest[y]);
            }
        }
        assert(apart(p2, r2)) by {
            assert forall|i: int, j: int| #![trigger p2[i], r2[j]] 0 <= i < p2.len() && 0 <= j
                < r2.len() implies p2[i].id != r2[j].id by {
                let y = if j < k {
                    j
                } else {
                    j + 1
                };
                assert(r2[j] == rest[y]);
                if i < placed.len() {
                    assert(p2[i] == placed[i]);
                } else {
                    assert(rest[k].id == n.id);
                    if y < k {
                        assert(rest[y].id != rest[k].id);
                    } else {
                        assert(rest[k].id != rest[y].id);
                    }
                }
            }
        }
        assert forall|i: int| #![trigger p2[i]] 0 <= i < p2.len() implies p2[i].id < bound || bound
            == u64::MAX by {
            if i < placed.len() {
                assert(p2[i] == placed[i]);
            } else {
                assert(rest[k].id == n.id);
            }
        }
        assert forall|i: int| #![trigger r2[i]] 0 <= i < r2.len() implies r2[i].id < bound || bound
            == u64::MAX by {
            assert(r2[i] == rest[if i < k {
                i
            } else {
                i + 1
            }]);
        }
        lemma_in_place(p2, r2, bound);
        let r = in_place(placed, rest);
        assert(r == in_place(p2, r2));
        assert forall|id: u64| #![trigger place_of(r, id)] place_of(r, id) is Some <==> place_of(
            placed,
            id,
        ) is Some || place_of(rest, id) is Some by {
            lemma_place(placed, id);
            lemma_place(rest, id);
            lemma_place(p2, id);
            lemma_place(r2, id);
            if place_of(p2, id) is Some {
                let i = place_of(p2, id)->0;
                if i < placed.len() {
                    assert(p2[i] == placed[i]);
                } else {
                    assert(rest[k].id == id);
                }
            }
            if place_of(r2, id) is Some {
                let i = place_of(r2, id)->0;
                assert(r2[i] == rest[if i < k {
                    i
                } else {
                    i + 1
                }]);
            }
            if place_of(placed, id) is Some {
                let i = place_of(placed, id)->0;
                assert(p2[i] == placed[i]);
            }
            if place_of(rest, id) is Some {
                let i = place_of(rest, id)->0;
                if i == k {
                    assert(p2[placed.len() as int].id == id);
                } else if i < k {
                    assert(r2[i] == rest[i]);
                } else {
                    assert(r2[i - 1] == rest[i]);
                }
            }
        }
    }
}

/// A conversation made of stored messages is valid: whatever the stored parents say, every message
/// comes after the one it answers, and the head is a message.
pub proof fn lemma_preloaded_valid(seeds: Seq<SeedView>, head: Option<u64>)
    ensures
        preloaded(seeds, head).wf(),
        preloaded(seeds, head).nodes.len() == numbered(seeds, first_free(seeds)).nodes.len(),
{
    let n = numbered(seeds, first_free(seeds));
    lemma_numbered(seeds, first_free(seeds));
    lemma_in_place(Seq::empty(), n.nodes, n.next);
    let t = preloaded(seeds, head);
    if n.nodes.len() > 0 {
        lemma_place(n.nodes, n.nodes.last().id);
    }
    assert(t.head is Some ==> place_of(n.nodes, t.head->0) is Some);
    assert(t.head is Some ==> place_of(t.nodes, t.head->0) is Some);
}

impl ConversationTree {
    /// Makes a conversation of stored messages. The head is the stored one where it is a message,
    /// else the message stored last.
    pub fn preload(seeds: &Vec<ConversationNodeSeed>, head: Option<u64>) -> (r: ConversationTree)
        ensures
            r@ == preloaded(views(seeds@), head),
            r@.wf(),
    {
        let free: u64 = free_number(seeds);
        let (nodes, next_id): (Vec<ConversationNode>, u64) = number_nodes(seeds, free);
        let n: usize = nodes.len();
        let kept: bool = match head {
            Some(h) => find_id(&nodes, h),
            None => false,
        };
        let chosen: Option<u64> = if kept {
            head
        } else if n > 0 {
            assert(views(nodes@).last() == nodes@[n - 1]@);
            Some(nodes[n - 1].id)
        } else {
            None
        };
        proof {
            lemma_preloaded_valid(views(seeds@), head);
        }
        ConversationTree { nodes: put_in_place(nodes), head: chosen, next_id }
    }
}

proof fn lemma_path_is_linked(nodes: Seq<NodeView>, i: int, k: int)
    requires
        TreeView::nodes_wf(nodes),
        0 <= i < nodes.len(),
        0 <= k < path_places(nodes, i).len(),
    ensures
        0 <= path_places(nodes, i)[k] <= i,
        k == 0 ==> nodes[path_places(nodes, i)[k]].parent is None,
        k > 0 ==> nodes[path_places(nodes, i)[k]].parent == Some(
            nodes[path_places(nodes, i)[k - 1]].id,
        ),
    decreases i,
{
    lemma_path(nodes, i);
    match nodes[i].parent {
        Some(p) => {
            let j = choose|j: int| #![trigger nodes[j]] 0 <= j < i && nodes[j].id == p;
            lemma_place(nodes, p);
            let q = place_of(nodes, p)->0;
            if q < j {
                assert(nodes[q].id != nodes[j].id);
            } else if j < q {
                assert(nodes[j].id != nodes[q].id);
            }
            assert(place_of(nodes, p) == Some(j));
            lemma_path(nodes, j);
            let up = path_places(nodes, j);
            assert(path_places(nodes, i) == up.push(i));
            if k < up.len() {
                lemma_path_is_linked(nodes, j, k);
            } else {
                assert(path_places(nodes, i)[k] == i);
                assert(path_places(nodes, i)[k - 1] == up.last());
            }
        },
        None => {
            assert(path_places(nodes, i) == seq![i]);
        },
    }
}

/// The branch leads from a message that answers nothing to the head, each message answering the one
/// in front of it; all of them are messages of the conversation.
pub proof fn lemma_branch_is_linked(t: TreeView, k: int)
    requires
        t.wf(),
    ensures
        t.head is None ==> t.branch().len() == 0,
        t.head is Some ==> t.branch().len() > 0 && t.branch().last().id == t.head->0,
        0 <= k < t.branch().len() ==> t.nodes.contains(t.branch()[k]),
        k == 0 && t.branch().len() > 0 ==> t.branch()[k].parent is None,
        0 < k < t.branch().len() ==> t.branch()[k].parent == Some(t.branch()[k - 1].id),
        t.said().len() == t.branch().len(),
        0 <= k < t.branch().len() ==> t.said()[k] == t.branch()[k].message && t.head_path()[k]
            == t.branch()[k].id,
{
    if t.head is Some {
        lemma_place(t.nodes, t.head->0);
        let i = place_of(t.nodes, t.head->0)->0;
        assert(t.head_places() == path_places(t.nodes, i));
        lemma_path(t.nodes, i);
        let last = t.branch().len() - 1;
        assert(t.branch()[last] == t.nodes[i]);
        if 0 <= k < t.branch().len() {
            lemma_path_is_linked(t.nodes, i, k);
            assert(t.branch()[k] == t.nodes[t.head_places()[k]]);
            if k > 0 {
                assert(t.branch()[k - 1] == t.nodes[t.head_places()[k - 1]]);
            }
        }
    }
}

/// The answers to a message are told in the order of the conversation, part behind part, and are
/// exactly the messages that name it as the one they answer.
pub proof fn lemma_answers_in_order(
    a: Seq<NodeView>,
    b: Seq<NodeView>,
    n: NodeView,
    id: u64,
)
    ensures
        answers_among(a + b, id) == answers_among(a, id) + answers_among(b, id),
        n.parent == Some(id) ==> answers_among(seq![n], id) == seq![n.id],
        n.parent != Some(id) ==> answers_among(seq![n], id) == Seq::<u64>::empty(),
    decreases b.len(),
{
    assert(seq![n].drop_last() =~= Seq::<NodeView>::empty());
    assert(answers_among(seq![n].drop_last(), id) =~= Seq::<u64>::empty());
    assert(Seq::<u64>::empty().push(n.id) =~= seq![n.id]);
    if b.len() == 0 {
        assert(a + b =~= a);
        assert(answers_among(a, id) + answers_among(b, id) =~= answers_among(a, id));
    } else {
        lemma_answers_in_order(a, b.drop_last(), n, id);
        assert((a + b).drop_last() =~= a + b.drop_last());
        assert((a + b).last() == b.last());
        assert(answers_among(a + b, id) =~= answers_among(a, id) + answers_among(b, id));
    }
}

/// A message as it is stored.
pub open spec fn stored(n: NodeView) -> SeedView {
    SeedView {
        node_id: Some(n.id),
        parent: n.parent,
        turn_id: Some(n.turn_id),
        timestamp: Some(n.timestamp),
        message: n.message,
    }
}

proof fn lemma_stored_are_numbered(nodes: Seq<NodeView>, next: u64)
    requires
        unique_ids(nodes),
    ensures
        numbered(nodes.map_values(|n: NodeView| stored(n)), next) == (Numbering { nodes, next }),
    decreases nodes.len(),
{
    let seeds = nodes.map_values(|n: NodeView| stored(n));
    if nodes.len() == 0 {
        assert(numbered(seeds, next).nodes =~= nodes);
    } else {
        let earlier = nodes.drop_last();
        assert forall|i: int, j: int| #![trigger earlier[i], earlier[j]]
            0 <= i < j < earlier.len() implies earlier[i].id != earlier[j].id by {
            assert(earlier[i] == nodes[i] && earlier[j] == nodes[j]);
        }
        lemma_stored_are_numbered(earlier, next);
        assert(seeds.drop_last() =~= earlier.map_values(|n: NodeView| stored(n)));
        assert(seeds.last() == stored(nodes.last()));
        lemma_place(earlier, nodes.last().id);
        if place_of(earlier, nodes.last().id) is Some {
            let i = place_of(earlier, nodes.last().id)->0;
            assert(earlier[i] == nodes[i]);
            assert(nodes[i].id != nodes[nodes.len() - 1].id);
        }
        assert(earlier.push(nodes.last()) =~= nodes);
        assert(numbered(seeds, next).nodes =~= nodes);
    }
}

proof fn lemma_ordered_stay(nodes: Seq<NodeView>, k: int)
    requires
        TreeView::nodes_wf(nodes),
        0 <= k <= nodes.len(),
    ensures
        in_place(nodes.take(k), nodes.skip(k)) == nodes,
    decreases nodes.len() - k,
{
    let placed = nodes.take(k);
    let rest = nodes.skip(k);
    if k == nodes.len() {
        assert(placed =~= nodes);
    } else {
        let n = nodes[k];
        assert(rest[0] == n);
        if n.parent is Some {
            let j = choose|j: int| #![trigger nodes[j]] 0 <= j < k && nodes[j].id == n.parent->0;
            lemma_place(rest, n.parent->0);
            lemma_place(placed, n.parent->0);
            assert(placed[j] == nodes[j]);
            if place_of(rest, n.parent->0) is Some {
                let i = place_of(rest, n.parent->0)->0;
                assert(rest[i] == nodes[k + i]);
                assert(nodes[j].id != nodes[k + i].id);
            }
        }
        assert(ready(rest, rest[0]));
        assert(first_ready(rest, 0) == 0);
        assert(settled(placed, n) == n);
        assert(placed.push(n) =~= nodes.take(k + 1));
        assert(rest.remove(0) =~= nodes.skip(k + 1));
        lemma_ordered_stay(nodes, k + 1);
    }
}

/// A conversation that is stored and taken over again is the same: all messages with their numbers,
/// their texts and what they answer, in the same order, and the same head.
pub proof fn lemma_stored_comes_back(t: TreeView)
    requires
        t.wf(),
    ensures
        ({
            let back = preloaded(t.nodes.map_values(|n: NodeView| stored(n)), t.head);
            &&& back.nodes == t.nodes
            &&& t.head is Some ==> back.head == t.head
            &&& t.head is Some ==> back.branch() == t.branch()
        }),
{
    let seeds = t.nodes.map_values(|n: NodeView| stored(n));
    lemma_stored_are_numbered(t.nodes, first_free(seeds));
    lemma_ordered_stay(t.nodes, 0);
    assert(t.nodes.take(0) =~= Seq::<NodeView>::empty());
    assert(t.nodes.skip(0) =~= t.nodes);
    let back = preloaded(seeds, t.head);
    if t.head is Some {
        assert(back.branch() =~= t.branch());
    }
}

proof fn lemma_unnumbered(seeds: Seq<SeedView>, k: int)
    requires
        forall|i: int| #![trigger seeds[i]]
            0 <= i < seeds.len() ==> seeds[i].node_id is None && seeds[i].parent is None,
        seeds.len() < u64::MAX,
    ensures
        first_free(seeds) == 1,
        ({
            let n = numbered(seeds, 1);
            &&& n.nodes.len() == seeds.len()
            &&& n.next == seeds.len() + 1
            &&& 0 <= k < seeds.len() ==> {
                &&& n.nodes[k].id == k + 1
                &&& n.nodes[k].message == seeds[k].message
                &&& k == 0 ==> n.nodes[k].parent is None
                &&& k > 0 ==> n.nodes[k].parent == Some(k as u64)
            }
        }),
    decreases seeds.len(),
{
    if seeds.len() > 0 {
        let earlier = seeds.drop_last();
        assert forall|i: int| #![trigger earlier[i]] 0 <= i < earlier.len() implies
            earlier[i].node_id is None && earlier[i].parent is None by {
            assert(earlier[i] == seeds[i]);
        }
        let last = seeds.len() - 1;
        assert(seeds.last() == seeds[last]);
        lemma_unnumbered(earlier, k);
        lemma_unnumbered(earlier, last - 1);
        if 0 <= k < last {
            assert(earlier[k] == seeds[k]);
            assert(numbered(seeds, 1).nodes[k] == numbered(earlier, 1).nodes[k]);
        }
    }
}

/// A history that is stored as a plain list becomes one branch: its messages in their order, each
/// answering the one in front of it, and the last one is the head.
pub proof fn lemma_plain_history_is_a_branch(seeds: Seq<SeedView>, k: int)
    requires
        forall|i: int| #![trigger seeds[i]]
            0 <= i < seeds.len() ==> seeds[i].node_id is None && seeds[i].parent is None,
        seeds.len() < u64::MAX,
    ensures
        ({
            let t = preloaded(seeds, None);
            &&& t.nodes.len() == seeds.len()
            &&& t.next_id == seeds.len() + 1
            &&& seeds.len() > 0 ==> t.head == Some(seeds.len() as u64)
            &&& 0 <= k < seeds.len() ==> {
                &&& t.nodes[k].id == k + 1
                &&& t.nodes[k].message == seeds[k].message
                &&& k == 0 ==> t.nodes[k].parent is None
                &&& k > 0 ==> t.nodes[k].parent == Some(k as u64)
            }
        }),
{
    lemma_unnumbered(seeds, k);
    lemma_unnumbered(seeds, seeds.len() - 1);
    let nodes = numbered(seeds, 1).nodes;
    assert(TreeView::nodes_wf(nodes)) by {
        assert forall|i: int, j: int| #![trigger nodes[i], nodes[j]]
            0 <= i < j < nodes.len() implies nodes[i].id != nodes[j].id by {
            lemma_unnumbered(seeds, i);
            lemma_unnumbered(seeds, j);
        }
        assert forall|i: int| #![trigger nodes[i]] 0 <= i < nodes.len() implies {
            ||| nodes[i].parent is None
            ||| exists|j: int| #![trigger nodes[j]] 0 <= j < i && nodes[j].id == nodes[i].parent->0
        } by {
            lemma_unnumbered(seeds, i);
            if i > 0 {
                lemma_unnumbered(seeds, i - 1);
                assert(nodes[i - 1].id == nodes[i].parent->0);
            }
        }
    }
    lemma_ordered_stay(nodes, 0);
    assert(nodes.take(0) =~= Seq::<NodeView>::empty());
    assert(nodes.skip(0) =~= nodes);
}

proof fn lemma_in_front_stays(placed: Seq<NodeView>, rest: Seq<NodeView>, i: int)
    requires
        0 <= i < placed.len(),
    ensures
        in_place(placed, rest).len() >= placed.len(),
        in_place(placed, rest)[i] == placed[i],
    decreases rest.len(),
{
    if rest.len() > 0 {
        let k = first_ready(rest, 0);
        if 0 <= k < rest.len() {
            lemma_in_front_stays(placed.push(settled(placed, rest[k])), rest.remove(k), i);
        }
    }
}

/// Whether a message is another one, but for what it answers.
pub open spec fn same_message(a: NodeView, b: NodeView) -> bool {
    a == (NodeView { parent: a.parent, ..b }) && (a.parent == b.parent || a.parent is None)
}

proof fn lemma_rest_is_kept(placed: Seq<NodeView>, rest: Seq<NodeView>, x: int) -> (i: int)
    requires
        0 <= x < rest.len(),
    ensures
        0 <= i < in_place(placed, rest).len(),
        same_message(in_place(placed, rest)[i], rest[x]),
    decreases rest.len(),
{
    lemma_first_ready(rest, 0);
    let k = first_ready(rest, 0);
    let n = settled(placed, rest[k]);
    let p2 = placed.push(n);
    let r2 = rest.remove(k);
    if x == k {
        lemma_in_front_stays(p2, r2, placed.len() as int);
        assert(p2[placed.len() as int] == n);
        placed.len() as int
    } else if x < k {
        assert(r2[x] == rest[x]);
        lemma_rest_is_kept(p2, r2, x)
    } else {
        assert(r2[x - 1] == rest[x]);
        lemma_rest_is_kept(p2, r2, x - 1)
    }
}

proof fn lemma_seed_is_numbered(seeds: Seq<SeedView>, free: u64, k: int) -> (i: int)
    requires
        0 <= k < seeds.len(),
        free >= first_free(seeds),
        seeds[k].node_id is Some,
        forall|j: int| #![trigger seeds[j]] 0 <= j < k ==> seeds[j].node_id != seeds[k].node_id,
    ensures
        0 <= i < numbered(seeds, free).nodes.len(),
        numbered(seeds, free).nodes[i] == (NodeView {
            id: seeds[k].node_id->0,
            parent: seeds[k].parent,
            turn_id: match seeds[k].turn_id {
                Some(t) => t,
                None => 0,
            },
            timestamp: match seeds[k].timestamp {
                Some(t) => t,
                None => Seq::empty(),
            },
            message: seeds[k].message,
        }),
    decreases seeds.len(),
{
    let earlier = seeds.drop_last();
    let n = earlier.len() as int;
    let id = seeds[k].node_id->0;
    let a = numbered(earlier, free);
    if k < n {
        assert(earlier[k] == seeds[k]);
        assert forall|j: int| #![trigger earlier[j]] 0 <= j < k implies earlier[j].node_id
            != earlier[k].node_id by {
            assert(earlier[j] == seeds[j]);
        }
        let i = lemma_seed_is_numbered(earlier, free, k);
        assert(numbered(seeds, free).nodes[i] == a.nodes[i]);
        i
    } else {
        assert(seeds.last() == seeds[k]);
        assert forall|j: int| #![trigger earlier[j]] 0 <= j < n implies earlier[j].node_id != Some(
            id,
        ) by {
            assert(earlier[j] == seeds[j]);
        }
        lemma_number_is_free(earlier, free, id);
        a.nodes.len() as int
    }
}

proof fn lemma_number_is_free(seeds: Seq<SeedView>, free: u64, id: u64)
    requires
        id < free || free == u64::MAX,
        free >= 1,
        forall|j: int| #![trigger seeds[j]] 0 <= j < seeds.len() ==> seeds[j].node_id != Some(id),
    ensures
        numbered(seeds, free).next >= free,
        place_of(numbered(seeds, free).nodes, id) is None,
    decreases seeds.len(),
{
    if seeds.len() > 0 {
        let earlier = seeds.drop_last();
        assert forall|j: int| #![trigger earlier[j]] 0 <= j < earlier.len() implies
            earlier[j].node_id != Some(id) by {
            assert(earlier[j] == seeds[j]);
        }
        assert(seeds.last() == seeds[seeds.len() - 1]);
        lemma_number_is_free(earlier, free, id);
        let a = numbered(earlier, free);
        let b = numbered(seeds, free);
        if b.nodes.len() > a.nodes.len() {
            assert(b.nodes.drop_last() =~= a.nodes);
            assert(b.nodes.last().id != id);
        }
    }
}

/// No stored message is lost: the first one with a number is taken over under that number, with its
/// text, its turn and its time; what it answers is kept too, or forgotten where that is not there.
pub proof fn lemma_stored_message_is_kept(seeds: Seq<SeedView>, head: Option<u64>, k: int)
    requires
        0 <= k < seeds.len(),
        seeds[k].node_id is Some,
        forall|j: int| #![trigger seeds[j]] 0 <= j < k ==> seeds[j].node_id != seeds[k].node_id,
    ensures
        exists|i: int|
            #![trigger preloaded(seeds, head).nodes[i]]
            {
                let t = preloaded(seeds, head);
                &&& 0 <= i < t.nodes.len()
                &&& t.nodes[i].id == seeds[k].node_id->0
                &&& t.nodes[i].message == seeds[k].message
                &&& seeds[k].turn_id is Some ==> t.nodes[i].turn_id == seeds[k].turn_id->0
                &&& seeds[k].timestamp is Some ==> t.nodes[i].timestamp == seeds[k].timestamp->0
                &&& t.nodes[i].parent == seeds[k].parent || t.nodes[i].parent is None
            },
        head == seeds[k].node_id ==> preloaded(seeds, head).head == head,
{
    let free = first_free(seeds);
    lemma_numbered(seeds, free);
    let n = numbered(seeds, free);
    let x = lemma_seed_is_numbered(seeds, free, k);
    let i = lemma_rest_is_kept(Seq::empty(), n.nodes, x);
    let t = preloaded(seeds, head);
    assert(t.nodes[i] == in_place(Seq::empty(), n.nodes)[i]);
    assert(same_message(t.nodes[i], n.nodes[x]));
    lemma_place(n.nodes, seeds[k].node_id->0);
}

} // verus!
