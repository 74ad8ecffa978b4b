//! What the caller knows about a turn, and what is made of it.

use crate::double::Real;
use crate::json::{Json, JsonView};
use crate::llm::types::borrowed;
use crate::model::{
    duplicate_all, duplicate_all_option, duplicate_option, view_opt, views, views_opt,
};
use crate::text_map::{ascending, lookup, TextMap};
use vstd::prelude::*;

verus! {

/// What the caller knows about a turn.
///
/// `attributes`, `selection` and `entities` are reference material; `instruction_attributes` and
/// `task_type` are instructions.
#[derive(Debug)]
pub struct TaskContext {
    pub attributes: TextMap<String>,
    pub instruction_attributes: TextMap<String>,
    pub flags: TextMap<bool>,
    pub payload: Option<Json>,
    pub task_type: String,
    pub project_id: Option<String>,
    pub selection: Option<String>,
    pub entities: Vec<String>,
    pub read_only: bool,
}

/// What a context says.
#[verifier::ext_equal]
pub struct ContextView {
    pub attributes: Seq<(Seq<char>, Seq<char>)>,
    pub instruction_attributes: Seq<(Seq<char>, Seq<char>)>,
    pub flags: Seq<(Seq<char>, bool)>,
    pub payload: Option<JsonView>,
    pub task_type: Seq<char>,
    pub project_id: Option<Seq<char>>,
    pub selection: Option<Seq<char>>,
    pub entities: Seq<Seq<char>>,
    pub read_only: bool,
}

impl View for TaskContext {
    type V = ContextView;

    open spec fn view(&self) -> ContextView {
        ContextView {
            attributes: self.attributes@,
            instruction_attributes: self.instruction_attributes@,
            flags: self.flags@,
            payload: view_opt(self.payload),
            task_type: self.task_type@,
            project_id: view_opt(self.project_id),
            selection: view_opt(self.selection),
            entities: views(self.entities@),
            read_only: self.read_only,
        }
    }
}

impl ContextView {
    /// A context that says nothing.
    pub open spec fn empty() -> ContextView {
        ContextView {
            attributes: Seq::empty(),
            instruction_attributes: Seq::empty(),
            flags: Seq::empty(),
            payload: None,
            task_type: Seq::empty(),
            project_id: None,
            selection: None,
            entities: Seq::empty(),
            read_only: false,
        }
    }

    /// Keys are in their order, as those of every map are.
    pub open spec fn valid(self) -> bool {
        ascending(self.attributes) && ascending(self.instruction_attributes) && ascending(
            self.flags,
        )
    }

    /// A flag; one that is not set is off.
    pub open spec fn flag(self, key: Seq<char>) -> bool {
        lookup(self.flags, key) == Some(true)
    }
}

impl TaskContext {
    /// A flag; one that is not set is off.
    pub fn flag(&self, key: &str) -> (r: bool)
        ensures
            r == self@.flag(key@),
    {
        match self.flags.get(key) {
            Some(b) => *b,
            None => false,
        }
    }

    /// An attribute.
    pub fn attr(&self, key: &str) -> (r: Option<&str>)
        ensures
            borrowed(r) == lookup(self@.attributes, key@),
    {
        match self.attributes.get(key) {
            Some(s) => Some(s.as_str()),
            None => None,
        }
    }
}

impl Default for TaskContext {
    fn default() -> (r: Self)
        ensures
            r@ == ContextView::empty(),
    {
        let r: TaskContext = TaskContext {
            attributes: TextMap::new(),
            instruction_attributes: TextMap::new(),
            flags: TextMap::new(),
            payload: None,
            task_type: String::new(),
            project_id: None,
            selection: None,
            entities: Vec::new(),
            read_only: false,
        };
        assert(r@ =~= ContextView::empty());
        r
    }
}

impl Clone for TaskContext {
    fn clone(&self) -> (r: Self)
        ensures
            r@ == self@,
    {
        TaskContext {
            attributes: self.attributes.copied(),
            instruction_attributes: self.instruction_attributes.copied(),
            flags: self.flags.copied(),
            payload: duplicate_option(&self.payload),
            task_type: self.task_type.clone(),
            project_id: duplicate_option(&self.project_id),
            selection: duplicate_option(&self.selection),
            entities: duplicate_all(&self.entities),
            read_only: self.read_only,
        }
    }
}

/// The configuration of a turn.
#[derive(Debug)]
pub struct AssembledTurn {
    /// Reference material, which is frozen with the user message that it belongs to.
    pub context_messages: Vec<String>,
    /// Instructions, which every request carries anew.
    pub instruction_messages: Vec<String>,
    /// Descriptions of tools: `None` leaves those of the session in place, an empty list forbids
    /// all tools, another list replaces those of the session.
    pub tool_schemas: Option<Vec<Json>>,
    /// The tools that may be run.
    pub enabled_tools: Vec<String>,
    /// Whether tools that write are forbidden.
    pub read_only: bool,
    pub model_override: Option<String>,
    pub temperature_override: Option<Real>,
    pub max_tokens_override: Option<i64>,
}

/// What a configuration says.
#[verifier::ext_equal]
pub struct TurnView {
    pub context_messages: Seq<Seq<char>>,
    pub instruction_messages: Seq<Seq<char>>,
    pub tool_schemas: Option<Seq<JsonView>>,
    pub enabled_tools: Seq<Seq<char>>,
    pub read_only: bool,
    pub model_override: Option<Seq<char>>,
    pub temperature_override: Option<Real>,
    pub max_tokens_override: Option<i64>,
}

impl View for AssembledTurn {
    type V = TurnView;

    open spec fn view(&self) -> TurnView {
        TurnView {
            context_messages: views(self.context_messages@),
            instruction_messages: views(self.instruction_messages@),
            tool_schemas: views_opt(self.tool_schemas),
            enabled_tools: views(self.enabled_tools@),
            read_only: self.read_only,
            model_override: view_opt(self.model_override),
            temperature_override: self.temperature_override,
            max_tokens_override: self.max_tokens_override,
        }
    }
}

impl TurnView {
    /// A configuration that changes nothing.
    pub open spec fn nothing() -> TurnView {
        TurnView {
            context_messages: Seq::empty(),
            instruction_messages: Seq::empty(),
            tool_schemas: None,
            enabled_tools: Seq::empty(),
            read_only: false,
            model_override: None,
            temperature_override: None,
            max_tokens_override: None,
        }
    }
}

impl Default for AssembledTurn {
    fn default() -> (r: Self)
        ensures
            r@ == TurnView::nothing(),
    {
        let r: AssembledTurn = AssembledTurn {
            context_messages: Vec::new(),
            instruction_messages: Vec::new(),
            tool_schemas: None,
            enabled_tools: Vec::new(),
            read_only: false,
            model_override: None,
            temperature_override: None,
            max_tokens_override: None,
        };
        assert(r@ =~= TurnView::nothing());
        r
    }
}

impl Clone for AssembledTurn {
    fn clone(&self) -> (r: Self)
        ensures
            r@ == self@,
    {
        AssembledTurn {
            context_messages: duplicate_all(&self.context_messages),
            instruction_messages: duplicate_all(&self.instruction_messages),
            tool_schemas: duplicate_all_option(&self.tool_schemas),
            enabled_tools: duplicate_all(&self.enabled_tools),
            read_only: self.read_only,
            model_override: duplicate_option(&self.model_override),
            temperature_override: self.temperature_override,
            max_tokens_override: self.max_tokens_override,
        }
    }
}

} // verus!
