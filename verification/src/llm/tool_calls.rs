//! Putting tool calls together out of the pieces that a stream brings.

use crate::json::{json_parsed, Json};
use crate::llm::types::{borrowed, ToolCall, ToolCallView, ToolFunctionCall};
use crate::model::{lemma_views_push, views};
use crate::text::{blank, decimal, decimal_text, is_blank};
use crate::llm::stream_decoder::texts;
use std::collections::HashMap;
use vstd::prelude::*;

verus! {

broadcast use vstd::std_specs::hash::group_hash_axioms;

/// Collects the pieces of tool calls by their numbers.
#[derive(Debug)]
pub struct ToolCallAccumulator {
    names: HashMap<usize, String>,
    args: HashMap<usize, String>,
    order: Vec<usize>,
}

/// What has been collected: the numbers in the order of their first pieces, and names and
/// arguments by number.
#[verifier::ext_equal]
pub struct CollectedView {
    pub order: Seq<usize>,
    pub names: Map<usize, Seq<char>>,
    pub args: Map<usize, Seq<char>>,
}

impl View for ToolCallAccumulator {
    type V = CollectedView;

    closed spec fn view(&self) -> CollectedView {
        CollectedView {
            order: self.order@,
            names: texts(self.names@),
            args: texts(self.args@),
        }
    }
}

/// A text by its number, or none.
pub open spec fn text_at(m: Map<usize, Seq<char>>, i: usize) -> Seq<char> {
    if m.dom().contains(i) {
        m[i]
    } else {
        Seq::empty()
    }
}

/// The identifier of a tool call within a session.
pub open spec fn call_id(turn_id: u64, index: usize) -> Seq<char> {
    "t"@ + decimal(turn_id as nat) + ":idx:"@ + decimal(index as nat)
}

/// Arguments, or an empty object where they are blank or not readable.
pub open spec fn readable_arguments(args: Seq<char>, readable: bool) -> Seq<char> {
    if is_blank(args) || !readable {
        "{}"@
    } else {
        args
    }
}

/// Arguments, or an empty object where they are no JSON.
pub open spec fn valid_arguments(args: Seq<char>) -> Seq<char> {
    readable_arguments(args, json_parsed(args) is Some)
}

/// Arguments, or an empty object where they are blank or not readable.
pub fn arguments_or_empty(args: &str, readable: bool) -> (r: String)
    ensures
        r@ == readable_arguments(args@, readable),
{
    if blank(args) || !readable {
        "{}".to_owned()
    } else {
        args.to_owned()
    }
}

impl CollectedView {
    /// Nothing collected.
    pub open spec fn nothing() -> CollectedView {
        CollectedView { order: Seq::empty(), names: Map::empty(), args: Map::empty() }
    }

    /// With a number that has had a piece.
    pub open spec fn touched(self, i: usize) -> CollectedView {
        CollectedView {
            order: if self.order.contains(i) {
                self.order
            } else {
                self.order.push(i)
            },
            args: if self.args.dom().contains(i) {
                self.args
            } else {
                self.args.insert(i, Seq::empty())
            },
            ..self
        }
    }

    /// With a name, where there is one.
    pub open spec fn named(self, i: usize, name: Option<Seq<char>>) -> CollectedView {
        match name {
            Some(n) if n.len() > 0 => CollectedView { names: self.names.insert(i, n), ..self },
            _ => self,
        }
    }

    /// With a piece of a call.
    pub open spec fn piece(self, i: usize, name: Option<Seq<char>>, args: Seq<char>) -> CollectedView {
        let t = self.touched(i).named(i, name);
        CollectedView { args: t.args.insert(i, text_at(t.args, i) + args), ..t }
    }

    /// The call with a number.
    pub open spec fn call(self, turn_id: u64, i: usize) -> ToolCallView {
        ToolCallView {
            id: Some(call_id(turn_id, i)),
            call_type: Some("function"@),
            name: text_at(self.names, i),
            arguments: valid_arguments(text_at(self.args, i)),
            index: i,
        }
    }

    /// The first `n` calls that have a name.
    pub open spec fn first_calls(self, turn_id: u64, n: nat) -> Seq<ToolCallView>
        decreases n,
    {
        if n == 0 {
            Seq::empty()
        } else {
            let i = self.order[n - 1];
            let earlier = self.first_calls(turn_id, (n - 1) as nat);
            if text_at(self.names, i).len() == 0 {
                earlier
            } else {
                earlier.push(self.call(turn_id, i))
            }
        }
    }

    /// The calls that have a name, in the order of their first pieces.
    pub open spec fn calls(self, turn_id: u64) -> Seq<ToolCallView> {
        self.first_calls(turn_id, self.order.len())
    }
}

/// The identifier of a tool call within a session.
pub fn synth_tool_call_id(turn_id: u64, index: usize) -> (r: String)
    ensures
        r@ == call_id(turn_id, index),
{
    let mut r: String = "t".to_owned();
    r.append(decimal_text(turn_id).as_str());
    r.append(":idx:");
    r.append(decimal_text(index as u64).as_str());
    r
}

impl Default for ToolCallAccumulator {
    fn default() -> (r: Self)
        ensures
            r@ == CollectedView::nothing(),
    {
        let r: ToolCallAccumulator = ToolCallAccumulator {
            names: HashMap::new(),
            args: HashMap::new(),
            order: Vec::new(),
        };
        assert(r@ =~= CollectedView::nothing());
        r
    }
}

impl ToolCallAccumulator {
    fn listed(&self, index: usize) -> (r: bool)
        ensures
            r == self@.order.contains(index),
    {
        let mut i: usize = 0;
        while i < self.order.len()
            invariant
                i <= self.order@.len(),
                forall|j: int| 0 <= j < i ==> self.order@[j] != index,
            decreases self.order@.len() - i,
        {
            if self.order[i] == index {
                return true;
            }
            i = i + 1;
        }
        false
    }

    /// Notes that a number has had a piece.
    pub fn touch(&mut self, index: usize)
        ensures
            final(self)@ == old(self)@.touched(index),
    {
        if !self.listed(index) {
            self.order.push(index);
        }
        if !self.args.contains_key(&index) {
            self.args.insert(index, String::new());
        }
        assert(self@ =~= old(self)@.touched(index));
    }

    fn name_call(&mut self, index: usize, name: Option<&str>)
        ensures
            final(self)@ == old(self)@.named(index, borrowed(name)),
    {
        match name {
            Some(n) => {
                if !n.is_empty() {
                    self.names.insert(index, n.to_owned());
                }
            },
            None => {},
        }
        assert(self@ =~= old(self)@.named(index, borrowed(name)));
    }

    /// Takes in the beginning of a call.
    pub fn on_start(&mut self, index: usize, name: Option<&str>)
        ensures
            final(self)@ == old(self)@.touched(index).named(index, borrowed(name)),
    {
        self.touch(index);
        self.name_call(index, name);
    }

    /// Takes in a piece of a call.
    pub fn on_delta(&mut self, index: usize, name: Option<&str>, args_delta: &str)
        ensures
            final(self)@ == old(self)@.piece(index, borrowed(name), args_delta@),
    {
        self.touch(index);
        self.name_call(index, name);
        let mut joined: String = match self.args.get(&index) {
            Some(args) => args.clone(),
            None => String::new(),
        };
        joined.append(args_delta);
        self.args.insert(index, joined);
        assert(self@ =~= old(self)@.piece(index, borrowed(name), args_delta@));
    }

    /// The calls that have a name, in the order of their first pieces.
    pub fn build_calls(&self, turn_id: u64) -> (r: Vec<ToolCall>)
        ensures
            views(r@) == self@.calls(turn_id),
    {
        let mut out: Vec<ToolCall> = Vec::new();
        let mut k: usize = 0;
        assert(views(out@) =~= self@.first_calls(turn_id, 0));
        while k < self.order.len()
            invariant
                k <= self.order@.len(),
                views(out@) == self@.first_calls(turn_id, k as nat),
            decreases self.order@.len() - k,
        {
            let index: usize = self.order[k];
            let name: String = match self.names.get(&index) {
                Some(n) => n.clone(),
                None => String::new(),
            };
            let args: String = match self.args.get(&index) {
                Some(a) => a.clone(),
                None => String::new(),
            };
            let readable: bool = Json::parse(args.as_str()).is_some();
            let arguments: String = arguments_or_empty(args.as_str(), readable);
            if !name.as_str().is_empty() {
                let call: ToolCall = ToolCall {
                    id: Some(synth_tool_call_id(turn_id, index)),
                    call_type: Some("function".to_owned()),
                    function: ToolFunctionCall { name, arguments },
                    index,
                };
                assert(call@ =~= self@.call(turn_id, index));
                let ghost before = out@;
                out.push(call);
                proof {
                    lemma_views_push(before, call);
                }
            }
            k = k + 1;
        }
        out
    }
}

/// Arguments go on as they came, character by character, unless they are blank or cannot be read.
pub proof fn lemma_arguments_go_on(args: Seq<char>, readable: bool)
    ensures
        !is_blank(args) && readable ==> readable_arguments(args, readable) == args,
        is_blank(args) || !readable ==> readable_arguments(args, readable) == "{}"@,
        !is_blank(args) && json_parsed(args) is Some ==> valid_arguments(args) == args,
        is_blank(args) || json_parsed(args) is None ==> valid_arguments(args) == "{}"@,
{
}

} // verus!
