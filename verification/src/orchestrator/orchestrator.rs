//! The configuration of turns that is used where the caller has none of their own.

use crate::double::Real;
use crate::error::ClientError;
use crate::json::{Json, JsonView};
use crate::llm::tool::{descriptions, listed_descriptions, names_of, ToolRegistry};
use crate::model::{lemma_views_push, views, views_opt};
use crate::orchestrator::context::{AssembledTurn, ContextView, TaskContext, TurnView};
use crate::text::same_text;
use crate::text_map::{lemma_entries_settled, lookup, TextMap};
use std::sync::Arc;
use vstd::prelude::*;

verus! {

/// Something that makes the configuration of a turn.
pub trait Orchestrate {
    fn assemble(&self, ctx: &TaskContext) -> Result<AssembledTurn, ClientError>;
}

/// The configuration of turns by the fields of the context, with tools by a whitelist.
#[derive(Debug)]
pub struct DefaultOrchestrator {
    registry: Arc<ToolRegistry>,
    whitelist: Option<Vec<String>>,
}

impl DefaultOrchestrator {
    /// The tools that there are.
    pub closed spec fn tools(self) -> Seq<(Seq<char>, JsonView)> {
        self.registry@
    }

    /// The tools that may be used; `None` stands for all.
    pub closed spec fn allowed(self) -> Option<Seq<Seq<char>>> {
        views_opt(self.whitelist)
    }
}

/// A key and its value as text.
pub open spec fn entry_text(key: Seq<char>, value: Seq<char>) -> Seq<char> {
    "["@ + key + "]\n"@ + value
}

/// Entries as texts, in the order of their keys.
pub open spec fn entry_texts(s: Seq<(Seq<char>, Seq<char>)>) -> Seq<Seq<char>> {
    s.map_values(|e: (Seq<char>, Seq<char>)| entry_text(e.0, e.1))
}

/// Texts with a separator between them.
pub open spec fn listed_texts(s: Seq<Seq<char>>) -> Seq<char>
    decreases s.len(),
{
    if s.len() == 0 {
        Seq::empty()
    } else if s.len() == 1 {
        s[0]
    } else {
        listed_texts(s.drop_last()) + ", "@ + s.last()
    }
}

/// What is said of the selection.
pub open spec fn selection_texts(selection: Option<Seq<char>>) -> Seq<Seq<char>> {
    match selection {
        Some(s) => seq!["[Current selection]\n"@ + s],
        None => Seq::empty(),
    }
}

/// What is said of the entities.
pub open spec fn entity_texts(entities: Seq<Seq<char>>) -> Seq<Seq<char>> {
    if entities.len() == 0 {
        Seq::empty()
    } else {
        seq!["[Related entities: "@ + listed_texts(entities) + "]"@]
    }
}

/// What is said of the kind of task.
pub open spec fn task_texts(task_type: Seq<char>) -> Seq<Seq<char>> {
    if task_type.len() == 0 {
        Seq::empty()
    } else {
        seq!["[Task type: "@ + task_type + "]"@]
    }
}

impl ContextView {
    /// The reference material of a context.
    pub open spec fn references(self) -> Seq<Seq<char>> {
        selection_texts(self.selection) + entity_texts(self.entities) + entry_texts(self.attributes)
    }

    /// The instructions of a context.
    pub open spec fn orders(self) -> Seq<Seq<char>> {
        task_texts(self.task_type) + entry_texts(self.instruction_attributes)
    }

    /// Whether tools that write are forbidden: the flag says, else the field.
    pub open spec fn forbids_writing(self) -> bool {
        match lookup(self.flags, "read_only"@) {
            Some(b) => b,
            None => self.read_only,
        }
    }
}

/// The temperature for a kind of task, where there is one: 0.85, 0.1 or zero.
pub open spec fn temperature_for(task_type: Seq<char>) -> Option<Real> {
    if task_type == "creative_writing"@ {
        Some(Real { bits: 0x3feb_3333_3333_3333 })
    } else if task_type == "proofreading"@ || task_type == "translation"@ {
        Some(Real { bits: 0x3fb9_9999_9999_999a })
    } else if task_type == "code_generation"@ {
        Some(Real { bits: 0 })
    } else {
        None
    }
}

/// Those of the given names that are names of tools.
pub open spec fn existing(names: Seq<Seq<char>>, tools: Seq<(Seq<char>, JsonView)>) -> Seq<Seq<char>>
    decreases names.len(),
{
    if names.len() == 0 {
        Seq::empty()
    } else if lookup(tools, names.last()) is Some {
        existing(names.drop_last(), tools).push(names.last())
    } else {
        existing(names.drop_last(), tools)
    }
}

/// The names of the tools that may be run.
pub open spec fn enabled(
    tools: Seq<(Seq<char>, JsonView)>,
    allowed: Option<Seq<Seq<char>>>,
) -> Seq<Seq<char>> {
    match allowed {
        Some(names) => existing(names, tools),
        None => names_of(tools),
    }
}

/// The descriptions of the tools that may be run. There is always a list: an orchestrator decides on
/// the tools of every turn, and where there are none it forbids all.
pub open spec fn offered(
    tools: Seq<(Seq<char>, JsonView)>,
    allowed: Option<Seq<Seq<char>>>,
) -> Option<Seq<JsonView>> {
    match allowed {
        Some(names) => Some(listed_descriptions(tools, existing(names, tools))),
        None => Some(descriptions(tools)),
    }
}

/// The configuration of a turn.
pub open spec fn assembled(
    ctx: ContextView,
    tools: Seq<(Seq<char>, JsonView)>,
    allowed: Option<Seq<Seq<char>>>,
) -> TurnView {
    TurnView {
        context_messages: ctx.references(),
        instruction_messages: ctx.orders(),
        tool_schemas: offered(tools, allowed),
        enabled_tools: enabled(tools, allowed),
        read_only: ctx.forbids_writing(),
        model_override: None,
        temperature_override: temperature_for(ctx.task_type),
        max_tokens_override: None,
    }
}

fn push_text(out: &mut Vec<String>, text: String)
    ensures
        views(final(out)@) == views(old(out)@).push(text@),
{
    proof {
        lemma_views_push(out@, text);
    }
    out.push(text);
}

fn push_entries(out: &mut Vec<String>, entries: &TextMap<String>)
    ensures
        views(final(out)@) == views(old(out)@) + entry_texts(entries@),
{
    let ghost earlier = views(out@);
    let ghost all = entry_texts(entries@);
    let n: usize = entries.len();
    let mut i: usize = 0;
    assert(views(out@) =~= earlier + all.take(0));
    while i < n
        invariant
            i <= n == entries@.len(),
            all == entry_texts(entries@),
            views(out@) == earlier + all.take(i as int),
        decreases n - i,
    {
        let mut text: String = "[".to_owned();
        text.append(entries.key(i));
        text.append("]\n");
        text.append(entries.value(i).as_str());
        assert(text@ =~= all[i as int]);
        push_text(out, text);
        assert(views(out@) =~= earlier + all.take(i + 1));
        i = i + 1;
    }
    assert(all.take(i as int) =~= all);
}

fn join_texts(texts: &Vec<String>) -> (r: String)
    ensures
        r@ == listed_texts(views(texts@)),
{
    let ghost s = views(texts@);
    let mut r: String = String::new();
    let mut i: usize = 0;
    assert(s.take(0) =~= Seq::<Seq<char>>::empty());
    while i < texts.len()
        invariant
            i <= texts@.len(),
            s == views(texts@),
            r@ == listed_texts(s.take(i as int)),
        decreases texts@.len() - i,
    {
        proof {
            assert(s.take(i + 1).drop_last() =~= s.take(i as int));
            assert(s.take(i + 1).last() == texts@[i as int]@);
        }
        if i > 0 {
            r.append(", ");
        }
        r.append(texts[i].as_str());
        i = i + 1;
        assert(r@ =~= listed_texts(s.take(i as int)));
    }
    assert(s.take(i as int) =~= s);
    r
}

impl DefaultOrchestrator {
    /// Allows all tools.
    pub fn new(registry: Arc<ToolRegistry>) -> (r: DefaultOrchestrator)
        ensures
            r.tools() == registry@,
            r.allowed() is None,
    {
        DefaultOrchestrator { registry, whitelist: None }
    }

    /// Allows the listed tools only; `None` allows all.
    pub fn with_whitelist(self, whitelist: Option<Vec<String>>) -> (r: DefaultOrchestrator)
        ensures
            r.tools() == self.tools(),
            r.allowed() == views_opt(whitelist),
    {
        DefaultOrchestrator { registry: self.registry, whitelist }
    }

    fn inject_context(&self, ctx: &TaskContext, turn: &mut AssembledTurn)
        ensures
            final(turn)@ == (TurnView {
                context_messages: old(turn)@.context_messages + ctx@.references(),
                instruction_messages: old(turn)@.instruction_messages + ctx@.orders(),
                ..old(turn)@
            }),
    {
        let ghost told = turn@.instruction_messages;
        let ghost shown = turn@.context_messages;
        if !ctx.task_type.as_str().is_empty() {
            let mut text: String = "[Task type: ".to_owned();
            text.append(ctx.task_type.as_str());
            text.append("]");
            push_text(&mut turn.instruction_messages, text);
        }
        assert(turn@.instruction_messages =~= told + task_texts(ctx@.task_type));
        if let Some(selection) = &ctx.selection {
            let mut text: String = "[Current selection]\n".to_owned();
            text.append(selection.as_str());
            push_text(&mut turn.context_messages, text);
        }
        assert(turn@.context_messages =~= shown + selection_texts(ctx@.selection));
        if ctx.entities.len() > 0 {
            let mut text: String = "[Related entities: ".to_owned();
            text.append(join_texts(&ctx.entities).as_str());
            text.append("]");
            push_text(&mut turn.context_messages, text);
        }
        assert(turn@.context_messages =~= shown + (selection_texts(ctx@.selection) + entity_texts(
            ctx@.entities,
        )));
        push_entries(&mut turn.context_messages, &ctx.attributes);
        assert(turn@.context_messages =~= shown + ctx@.references());
        push_entries(&mut turn.instruction_messages, &ctx.instruction_attributes);
        assert(turn@.instruction_messages =~= told + ctx@.orders());
    }

    fn select_tools(&self, turn: &mut AssembledTurn)
        ensures
            final(turn)@ == (TurnView {
                tool_schemas: offered(self.tools(), self.allowed()),
                enabled_tools: enabled(self.tools(), self.allowed()),
                ..old(turn)@
            }),
    {
        match &self.whitelist {
            Some(whitelist) => {
                let ghost s = views(whitelist@);
                let ghost tools = self.tools();
                let mut names: Vec<String> = Vec::new();
                let mut i: usize = 0;
                assert(s.take(0) =~= Seq::<Seq<char>>::empty());
                assert(views(names@) =~= Seq::<Seq<char>>::empty());
                while i < whitelist.len()
                    invariant
                        i <= whitelist@.len(),
                        s == views(whitelist@),
                        tools == self.tools(),
                        views(names@) == existing(s.take(i as int), tools),
                    decreases whitelist@.len() - i,
                {
                    proof {
                        assert(s.take(i + 1).drop_last() =~= s.take(i as int));
                        assert(s.take(i + 1).last() == whitelist@[i as int]@);
                    }
                    if self.registry.has_tool(whitelist[i].as_str()) {
                        push_text(&mut names, whitelist[i].clone());
                    }
                    i = i + 1;
                }
                assert(s.take(i as int) =~= s);
                turn.tool_schemas = Some(self.registry.schemas_filtered_strict(&names));
                turn.enabled_tools = names;
            },
            None => {
                let schemas: Vec<Json> = match self.registry.schemas() {
                    Some(all) => all,
                    None => Vec::new(),
                };
                assert(views(schemas@) =~= descriptions(self.tools()));
                turn.tool_schemas = Some(schemas);
                turn.enabled_tools = self.registry.tool_names();
            },
        }
    }

    fn apply_overrides(&self, ctx: &TaskContext, turn: &mut AssembledTurn)
        ensures
            final(turn)@ == (TurnView {
                read_only: ctx@.forbids_writing(),
                temperature_override: match temperature_for(ctx@.task_type) {
                    Some(t) => Some(t),
                    None => old(turn)@.temperature_override,
                },
                ..old(turn)@
            }),
    {
        turn.read_only = match ctx.flags.get("read_only") {
            Some(b) => *b,
            None => ctx.read_only,
        };
        let task: &str = ctx.task_type.as_str();
        if same_text(task, "creative_writing") {
            turn.temperature_override = Some(Real { bits: 0x3feb_3333_3333_3333 });
        } else if same_text(task, "proofreading") || same_text(task, "translation") {
            turn.temperature_override = Some(Real { bits: 0x3fb9_9999_9999_999a });
        } else if same_text(task, "code_generation") {
            turn.temperature_override = Some(Real { bits: 0 });
        }
    }
}

impl Orchestrate for DefaultOrchestrator {
    /// The configuration of a turn.
    fn assemble(&self, ctx: &TaskContext) -> (r: Result<AssembledTurn, ClientError>)
        ensures
            r is Ok,
            r->Ok_0@ == assembled(ctx@, self.tools(), self.allowed()),
    {
        let mut turn: AssembledTurn = AssembledTurn::default();
        self.inject_context(ctx, &mut turn);
        self.select_tools(&mut turn);
        self.apply_overrides(ctx, &mut turn);
        assert(turn@ =~= assembled(ctx@, self.tools(), self.allowed()));
        Ok(turn)
    }
}

/// The order in which attributes were entered does not matter: what is found under the keys settles
/// what the model is shown and told.
pub proof fn lemma_entry_order_irrelevant(
    a: ContextView,
    b: ContextView,
    tools: Seq<(Seq<char>, JsonView)>,
    allowed: Option<Seq<Seq<char>>>,
)
    requires
        a.valid(),
        b.valid(),
        forall|key: Seq<char>| #![trigger lookup(a.attributes, key)]
            lookup(a.attributes, key) == lookup(b.attributes, key),
        forall|key: Seq<char>| #![trigger lookup(a.instruction_attributes, key)]
            lookup(a.instruction_attributes, key) == lookup(b.instruction_attributes, key),
        forall|key: Seq<char>| #![trigger lookup(a.flags, key)]
            lookup(a.flags, key) == lookup(b.flags, key),
        a.task_type == b.task_type,
        a.selection == b.selection,
        a.entities == b.entities,
        a.read_only == b.read_only,
    ensures
        assembled(a, tools, allowed) == assembled(b, tools, allowed),
{
    lemma_entries_settled(a.attributes, b.attributes);
    lemma_entries_settled(a.instruction_attributes, b.instruction_attributes);
    lemma_entries_settled(a.flags, b.flags);
}

/// Reference material never becomes an instruction: the instructions depend on the instruction
/// fields alone, and the material on the reference fields alone.
pub proof fn lemma_layers_are_apart(
    a: ContextView,
    b: ContextView,
    tools: Seq<(Seq<char>, JsonView)>,
    allowed: Option<Seq<Seq<char>>>,
)
    ensures
        a.task_type == b.task_type && a.instruction_attributes == b.instruction_attributes
            ==> assembled(a, tools, allowed).instruction_messages == assembled(
            b,
            tools,
            allowed,
        ).instruction_messages,
        a.selection == b.selection && a.entities == b.entities && a.attributes == b.attributes
            ==> assembled(a, tools, allowed).context_messages == assembled(
            b,
            tools,
            allowed,
        ).context_messages,
{
}

/// With a whitelist the tools that may be run are those that are listed and exist, and a list of
/// none of them forbids all tools.
pub proof fn lemma_whitelist(tools: Seq<(Seq<char>, JsonView)>, names: Seq<Seq<char>>)
    ensures
        forall|n: Seq<char>| #![trigger enabled(tools, Some(names)).contains(n)]
            enabled(tools, Some(names)).contains(n) <==> names.contains(n) && lookup(tools, n)
                is Some,
        enabled(tools, Some(names)).len() == 0 ==> offered(tools, Some(names)) == Some(
            Seq::<JsonView>::empty(),
        ),
{
    lemma_existing(names, tools);
    if existing(names, tools).len() == 0 {
        assert(existing(names, tools) =~= Seq::<Seq<char>>::empty());
        lemma_none_listed(tools);
    }
}

proof fn lemma_existing(names: Seq<Seq<char>>, tools: Seq<(Seq<char>, JsonView)>)
    ensures
        forall|n: Seq<char>| #![trigger existing(names, tools).contains(n)]
            existing(names, tools).contains(n) <==> names.contains(n) && lookup(tools, n) is Some,
    decreases names.len(),
{
    if names.len() > 0 {
        let shorter = names.drop_last();
        let e = existing(shorter, tools);
        let f = existing(names, tools);
        lemma_existing(shorter, tools);
        assert forall|n: Seq<char>| #![trigger f.contains(n)] f.contains(n) <==> names.contains(n)
            && lookup(tools, n) is Some by {
            if names.contains(n) {
                let i = choose|i: int| 0 <= i < names.len() && names[i] == n;
                if i < names.len() - 1 {
                    assert(shorter[i] == n);
                    assert(shorter.contains(n));
                }
            }
            if shorter.contains(n) {
                let i = choose|i: int| 0 <= i < shorter.len() && shorter[i] == n;
                assert(names[i] == n);
            }
            assert(e.contains(n) <==> shorter.contains(n) && lookup(tools, n) is Some);
            if e.contains(n) {
                let i = choose|i: int| 0 <= i < e.len() && e[i] == n;
                assert(f[i] == n);
            }
            if f.contains(n) && !e.contains(n) {
                let i = choose|i: int| 0 <= i < f.len() && f[i] == n;
                assert(i == e.len());
                assert(names[names.len() - 1] == n);
            }
            if n == names.last() && lookup(tools, n) is Some {
                assert(f[e.len() as int] == n);
            }
        }
    }
}

proof fn lemma_none_listed(tools: Seq<(Seq<char>, JsonView)>)
    ensures
        listed_descriptions(tools, Seq::empty()) == Seq::<JsonView>::empty(),
    decreases tools.len(),
{
    if tools.len() > 0 {
        lemma_none_listed(tools.drop_last());
    }
}

/// Where the flag says whether tools may write, the field does not count.
pub proof fn lemma_flag_before_field(ctx: ContextView, b: bool)
    ensures
        lookup(ctx.flags, "read_only"@) == Some(b) ==> ctx.forbids_writing() == b,
        lookup(ctx.flags, "read_only"@) is None ==> ctx.forbids_writing() == ctx.read_only,
{
}

/// How many texts a selection, or entities, make.
spec fn one_where(b: bool) -> int {
    if b {
        1
    } else {
        0
    }
}

/// Everything that a context holds as material is shown, and nothing else: the selection first, then
/// the entities in one text, then every attribute under its key, in the order of the keys.
pub proof fn lemma_all_material_is_shown(
    ctx: ContextView,
    tools: Seq<(Seq<char>, JsonView)>,
    allowed: Option<Seq<Seq<char>>>,
)
    ensures
        ({
            let shown = assembled(ctx, tools, allowed).context_messages;
            let a: int = if ctx.selection is Some {
                1
            } else {
                0
            };
            let b: int = if ctx.entities.len() > 0 {
                a + 1
            } else {
                a
            };
            &&& shown.len() == b + ctx.attributes.len()
            &&& ctx.selection is Some ==> shown[0] == "[Current selection]\n"@ + ctx.selection->0
            &&& ctx.entities.len() > 0 ==> shown[a] == "[Related entities: "@ + listed_texts(
                ctx.entities,
            ) + "]"@
            &&& forall|i: int| #![trigger ctx.attributes[i]]
                0 <= i < ctx.attributes.len() ==> shown[b + i] == "["@ + ctx.attributes[i].0
                    + "]\n"@ + ctx.attributes[i].1
        }),
{
    let shown = assembled(ctx, tools, allowed).context_messages;
    let b = one_where(ctx.selection is Some) + one_where(ctx.entities.len() > 0);
    assert forall|i: int| #![trigger ctx.attributes[i]] 0 <= i < ctx.attributes.len() implies shown[b
        + i] == "["@ + ctx.attributes[i].0 + "]\n"@ + ctx.attributes[i].1 by {
        assert(shown[b + i] == entry_texts(ctx.attributes)[i]);
    }
}

/// Everything that a context holds as instructions is told, and nothing else: the kind of task
/// first, where there is one, then every instruction under its key, in the order of the keys.
pub proof fn lemma_all_instructions_are_told(
    ctx: ContextView,
    tools: Seq<(Seq<char>, JsonView)>,
    allowed: Option<Seq<Seq<char>>>,
)
    ensures
        ({
            let told = assembled(ctx, tools, allowed).instruction_messages;
            let a: int = if ctx.task_type.len() > 0 {
                1
            } else {
                0
            };
            &&& told.len() == a + ctx.instruction_attributes.len()
            &&& ctx.task_type.len() > 0 ==> told[0] == "[Task type: "@ + ctx.task_type + "]"@
            &&& forall|i: int| #![trigger ctx.instruction_attributes[i]]
                0 <= i < ctx.instruction_attributes.len() ==> told[a + i] == "["@
                    + ctx.instruction_attributes[i].0 + "]\n"@ + ctx.instruction_attributes[i].1
        }),
{
    let told = assembled(ctx, tools, allowed).instruction_messages;
    let a = one_where(ctx.task_type.len() > 0);
    assert forall|i: int| #![trigger ctx.instruction_attributes[i]]
        0 <= i < ctx.instruction_attributes.len() implies told[a + i] == "["@
        + ctx.instruction_attributes[i].0 + "]\n"@ + ctx.instruction_attributes[i].1 by {
        assert(told[a + i] == entry_texts(ctx.instruction_attributes)[i]);
    }
}

/// Entities are listed one after another, with a comma between two of them: none is left out.
pub proof fn lemma_entities_are_listed(first: Seq<char>, entities: Seq<Seq<char>>, more: Seq<char>)
    ensures
        listed_texts(seq![first]) == first,
        entities.len() > 0 ==> listed_texts(entities.push(more)) == listed_texts(entities) + ", "@
            + more,
{
    assert(entities.push(more).drop_last() =~= entities);
}

/// Different selections are shown differently, and a selection never looks like none.
pub proof fn lemma_selection_is_seen(
    ctx: ContextView,
    other: Option<Seq<char>>,
    tools: Seq<(Seq<char>, JsonView)>,
    allowed: Option<Seq<Seq<char>>>,
)
    ensures
        assembled(ctx, tools, allowed).context_messages == assembled(
            ContextView { selection: other, ..ctx },
            tools,
            allowed,
        ).context_messages ==> ctx.selection == other,
{
    let b = ContextView { selection: other, ..ctx };
    let x = assembled(ctx, tools, allowed).context_messages;
    let y = assembled(b, tools, allowed).context_messages;
    lemma_all_material_is_shown(ctx, tools, allowed);
    lemma_all_material_is_shown(b, tools, allowed);
    if x == y {
        assert(x.len() == y.len());
        if ctx.selection is Some && other is Some {
            let front = "[Current selection]\n"@;
            assert(x[0] == y[0]);
            assert(ctx.selection->0 =~= (front + ctx.selection->0).skip(front.len() as int));
            assert(other->0 =~= (front + other->0).skip(front.len() as int));
        }
    }
}

/// Of the parameters of a request, a turn sets the temperature alone, and that for four kinds of
/// task: writing freely, proofreading, translating and writing code.
pub proof fn lemma_only_temperature_is_set(
    ctx: ContextView,
    tools: Seq<(Seq<char>, JsonView)>,
    allowed: Option<Seq<Seq<char>>>,
)
    ensures
        assembled(ctx, tools, allowed).model_override is None,
        assembled(ctx, tools, allowed).max_tokens_override is None,
        assembled(ctx, tools, allowed).temperature_override is Some <==> ctx.task_type
            == "creative_writing"@ || ctx.task_type == "proofreading"@ || ctx.task_type
            == "translation"@ || ctx.task_type == "code_generation"@,
        ctx.task_type == "creative_writing"@ ==> assembled(
            ctx,
            tools,
            allowed,
        ).temperature_override->0.bits == 0x3feb_3333_3333_3333,
        ctx.task_type == "proofreading"@ || ctx.task_type == "translation"@ ==> assembled(
            ctx,
            tools,
            allowed,
        ).temperature_override->0.bits == 0x3fb9_9999_9999_999a,
        ctx.task_type == "code_generation"@ ==> assembled(
            ctx,
            tools,
            allowed,
        ).temperature_override->0.bits == 0,
{
    reveal_strlit("creative_writing");
    reveal_strlit("proofreading");
    reveal_strlit("translation");
    reveal_strlit("code_generation");
    assert("creative_writing"@.len() == 16 && "proofreading"@.len() == 12 && "translation"@.len()
        == 11 && "code_generation"@.len() == 15);
}

/// Whether a description is that of a tool with one of given names.
pub open spec fn describes_one_of(
    tools: Seq<(Seq<char>, JsonView)>,
    names: Seq<Seq<char>>,
    description: JsonView,
) -> bool {
    exists|i: int| #![trigger tools[i]]
        0 <= i < tools.len() && names.contains(tools[i].0) && tools[i].1 == description
}

proof fn lemma_listed(tools: Seq<(Seq<char>, JsonView)>, names: Seq<Seq<char>>)
    ensures
        forall|i: int| #![trigger tools[i]]
            0 <= i < tools.len() && names.contains(tools[i].0) ==> listed_descriptions(
                tools,
                names,
            ).contains(tools[i].1),
        forall|k: int| #![trigger listed_descriptions(tools, names)[k]]
            0 <= k < listed_descriptions(tools, names).len() ==> describes_one_of(
                tools,
                names,
                listed_descriptions(tools, names)[k],
            ),
    decreases tools.len(),
{
    if tools.len() > 0 {
        let t = tools.drop_last();
        lemma_listed(t, names);
        let e = listed_descriptions(t, names);
        let f = listed_descriptions(tools, names);
        assert forall|i: int| #![trigger tools[i]] 0 <= i < tools.len() && names.contains(
            tools[i].0,
        ) implies f.contains(tools[i].1) by {
            if i < t.len() {
                assert(t[i] == tools[i]);
                let k = choose|k: int| 0 <= k < e.len() && e[k] == tools[i].1;
                assert(f[k] == tools[i].1);
            } else {
                assert(f[f.len() - 1] == tools[i].1);
            }
        }
        assert forall|k: int| #![trigger f[k]] 0 <= k < f.len() implies describes_one_of(
            tools,
            names,
            f[k],
        ) by {
            if k < e.len() {
                assert(e[k] == f[k]);
                let i = choose|i: int| #![trigger t[i]]
                    0 <= i < t.len() && names.contains(t[i].0) && t[i].1 == e[k];
                assert(tools[i] == t[i]);
            } else {
                assert(tools[tools.len() - 1].1 == f[k]);
            }
        }
    }
}

/// The tools that the model is told of are those that may be run: every tool that may be run is
/// described, and nothing else is. Without a whitelist all tools are, in their order.
pub proof fn lemma_offered_are_enabled(
    tools: Seq<(Seq<char>, JsonView)>,
    allowed: Option<Seq<Seq<char>>>,
)
    ensures
        offered(tools, allowed) is Some,
        forall|i: int| #![trigger tools[i]]
            0 <= i < tools.len() && enabled(tools, allowed).contains(tools[i].0) ==> offered(
                tools,
                allowed,
            )->0.contains(tools[i].1),
        forall|k: int| #![trigger offered(tools, allowed)->0[k]]
            0 <= k < offered(tools, allowed)->0.len() ==> describes_one_of(
                tools,
                enabled(tools, allowed),
                offered(tools, allowed)->0[k],
            ),
        allowed is None ==> enabled(tools, allowed).len() == tools.len() && offered(
            tools,
            allowed,
        )->0.len() == tools.len() && forall|i: int| #![trigger tools[i]]
            0 <= i < tools.len() ==> enabled(tools, allowed)[i] == tools[i].0 && offered(
                tools,
                allowed,
            )->0[i] == tools[i].1,
{
    match allowed {
        Some(names) => {
            lemma_listed(tools, existing(names, tools));
        },
        None => {
            let e = enabled(tools, allowed);
            let o = offered(tools, allowed)->0;
            assert forall|i: int| #![trigger tools[i]] 0 <= i < tools.len() implies e[i]
                == tools[i].0 && o[i] == tools[i].1 by {}
            assert forall|i: int| #![trigger tools[i]] 0 <= i < tools.len() implies o.contains(
                tools[i].1,
            ) && e.contains(tools[i].0) by {
                assert(o[i] == tools[i].1);
                assert(e[i] == tools[i].0);
            }
            assert forall|k: int| #![trigger o[k]] 0 <= k < o.len() implies describes_one_of(
                tools,
                e,
                o[k],
            ) by {
                assert(tools[k].1 == o[k]);
            }
        },
    }
}

/// Whether tools may write depends on the flag and the field of the context alone.
pub proof fn lemma_read_only_reaches_the_turn(
    ctx: ContextView,
    tools: Seq<(Seq<char>, JsonView)>,
    allowed: Option<Seq<Seq<char>>>,
)
    ensures
        lookup(ctx.flags, "read_only"@) is Some ==> assembled(ctx, tools, allowed).read_only
            == lookup(ctx.flags, "read_only"@)->0,
        lookup(ctx.flags, "read_only"@) is None ==> assembled(ctx, tools, allowed).read_only
            == ctx.read_only,
{
}

/// The tools that a list allows are those of it that there are, in its order: list behind list, and
/// name by name. Their descriptions come in the order of the tools.
pub proof fn lemma_allowed_tools_in_order(
    tools: Seq<(Seq<char>, JsonView)>,
    a: Seq<Seq<char>>,
    b: Seq<Seq<char>>,
    name: Seq<char>,
)
    ensures
        enabled(tools, Some(a + b)) == enabled(tools, Some(a)) + enabled(tools, Some(b)),
        lookup(tools, name) is Some ==> enabled(tools, Some(seq![name])) == seq![name],
        lookup(tools, name) is None ==> enabled(tools, Some(seq![name]))
            == Seq::<Seq<char>>::empty(),
    decreases b.len(),
{
    assert(seq![name].drop_last() =~= Seq::<Seq<char>>::empty());
    assert(existing(seq![name].drop_last(), tools) =~= Seq::<Seq<char>>::empty());
    assert(Seq::<Seq<char>>::empty().push(name) =~= seq![name]);
    if b.len() == 0 {
        assert(a + b =~= a);
        assert(existing(a, tools) + existing(b, tools) =~= existing(a, tools));
    } else {
        lemma_allowed_tools_in_order(tools, a, b.drop_last(), name);
        assert((a + b).drop_last() =~= a + b.drop_last());
        assert((a + b).last() == b.last());
        assert(existing(a + b, tools) =~= existing(a, tools) + existing(b, tools));
    }
}

/// Descriptions are listed in the order of the tools, part behind part, and each exactly where the
/// name of its tool is in the list.
pub proof fn lemma_descriptions_in_order(
    a: Seq<(Seq<char>, JsonView)>,
    b: Seq<(Seq<char>, JsonView)>,
    tool: (Seq<char>, JsonView),
    names: Seq<Seq<char>>,
)
    ensures
        listed_descriptions(a + b, names) == listed_descriptions(a, names) + listed_descriptions(
            b,
            names,
        ),
        names.contains(tool.0) ==> listed_descriptions(seq![tool], names) == seq![tool.1],
        !names.contains(tool.0) ==> listed_descriptions(seq![tool], names)
            == Seq::<JsonView>::empty(),
    decreases b.len(),
{
    assert(seq![tool].drop_last() =~= Seq::<(Seq<char>, JsonView)>::empty());
    assert(listed_descriptions(seq![tool].drop_last(), names) =~= Seq::<JsonView>::empty());
    assert(Seq::<JsonView>::empty().push(tool.1) =~= seq![tool.1]);
    if b.len() == 0 {
        assert(a + b =~= a);
        assert(listed_descriptions(a, names) + listed_descriptions(b, names)
            =~= listed_descriptions(a, names));
    } else {
        lemma_descriptions_in_order(a, b.drop_last(), tool, names);
        assert((a + b).drop_last() =~= a + b.drop_last());
        assert((a + b).last() == b.last());
        assert(listed_descriptions(a + b, names) =~= listed_descriptions(a, names)
            + listed_descriptions(b, names));
    }
}

} // verus!
