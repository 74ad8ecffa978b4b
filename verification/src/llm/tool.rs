//! Tools: how they are described to the model, and how their arguments are read.

use crate::json::{integer, lemma_trees, member, text, Json, JsonView};
use crate::model::{duplicate_all, lemma_views_push, view_opt, views, views_opt};
use crate::text::same_text;
use crate::text_map::{ascending, lookup, with_entry, TextMap};
use vstd::prelude::*;

verus! {

/// What is said of an argument that is missing or of the wrong kind.
pub open spec fn bad_argument(key: Seq<char>) -> Seq<char> {
    "缺少或非法参数: "@ + key
}

fn bad_argument_text(key: &str) -> (r: String)
    ensures
        r@ == bad_argument(key@),
{
    let mut r: String = "缺少或非法参数: ".to_owned();
    r.append(key);
    r
}

/// An integer argument, cut to its low 32 bits.
pub fn arg_i32(args: &Json, key: &str) -> (r: Result<i32, String>)
    ensures
        match r {
            Ok(n) => integer(member(args@, key@)) is Some && n == integer(
                member(args@, key@),
            )->0 as i64 as i32,
            Err(e) => integer(member(args@, key@)) is None && e@ == bad_argument(key@),
        },
{
    match args.get(key) {
        Some(v) => match v.as_i64() {
            Some(n) => Ok(
                #[verifier::truncate]
                (n as i32),
            ),
            None => Err(bad_argument_text(key)),
        },
        None => Err(bad_argument_text(key)),
    }
}

/// A text argument.
pub fn arg_str<'a>(args: &'a Json, key: &str) -> (r: Result<&'a str, String>)
    ensures
        match r {
            Ok(s) => text(member(args@, key@)) == Some(s@),
            Err(e) => text(member(args@, key@)) is None && e@ == bad_argument(key@),
        },
{
    match args.get(key) {
        Some(v) => match v.as_str() {
            Some(s) => Ok(s),
            None => Err(bad_argument_text(key)),
        },
        None => Err(bad_argument_text(key)),
    }
}

/// An argument of a tool, as the model is told of it.
#[derive(Debug)]
pub struct ToolFunctionArg {
    pub name: String,
    pub arg_type: String,
    pub required: Option<bool>,
    pub description: Option<String>,
    pub default: Option<Json>,
    pub max: Option<Json>,
    pub min: Option<Json>,
    pub enum_values: Option<Vec<Json>>,
    pub items: Option<Json>,
    pub format: Option<String>,
    pub properties: Option<Json>,
    pub additional_properties: Option<Json>,
}

/// What is said of an argument.
#[verifier::ext_equal]
pub struct ArgView {
    pub name: Seq<char>,
    pub arg_type: Seq<char>,
    pub required: Option<bool>,
    pub description: Option<Seq<char>>,
    pub default: Option<JsonView>,
    pub max: Option<JsonView>,
    pub min: Option<JsonView>,
    pub enum_values: Option<Seq<JsonView>>,
    pub items: Option<JsonView>,
    pub format: Option<Seq<char>>,
    pub properties: Option<JsonView>,
    pub additional_properties: Option<JsonView>,
}

impl View for ToolFunctionArg {
    type V = ArgView;

    open spec fn view(&self) -> ArgView {
        ArgView {
            name: self.name@,
            arg_type: self.arg_type@,
            required: self.required,
            description: view_opt(self.description),
            default: view_opt(self.default),
            max: view_opt(self.max),
            min: view_opt(self.min),
            enum_values: views_opt(self.enum_values),
            items: view_opt(self.items),
            format: view_opt(self.format),
            properties: view_opt(self.properties),
            additional_properties: view_opt(self.additional_properties),
        }
    }
}

/// Members with one more, if there is one.
pub open spec fn put(m: Map<Seq<char>, JsonView>, key: Seq<char>, value: Option<JsonView>) -> Map<
    Seq<char>,
    JsonView,
> {
    match value {
        Some(v) => m.insert(key, v),
        None => m,
    }
}

/// An optional text as a value.
pub open spec fn text_value(o: Option<Seq<char>>) -> Option<JsonView> {
    match o {
        Some(s) => Some(JsonView::Text(s)),
        None => None,
    }
}

/// An optional list as a value.
pub open spec fn list_value(o: Option<Seq<JsonView>>) -> Option<JsonView> {
    match o {
        Some(s) => Some(JsonView::Array(s)),
        None => None,
    }
}

impl ArgView {
    /// An argument of which only its name and type are said, and that may be left out.
    pub open spec fn plain(name: Seq<char>, arg_type: Seq<char>) -> ArgView {
        ArgView {
            name,
            arg_type,
            required: Some(false),
            description: None,
            default: None,
            max: None,
            min: None,
            enum_values: None,
            items: None,
            format: None,
            properties: None,
            additional_properties: None,
        }
    }

    /// The description of an argument: its type, and what else is said of it.
    pub open spec fn schema(self) -> JsonView {
        let m = Map::<Seq<char>, JsonView>::empty().insert("type"@, JsonView::Text(self.arg_type));
        let m = put(m, "description"@, text_value(self.description));
        let m = put(m, "default"@, self.default);
        let m = put(m, "maximum"@, self.max);
        let m = put(m, "minimum"@, self.min);
        let m = put(m, "enum"@, list_value(self.enum_values));
        let m = put(m, "items"@, self.items);
        let m = put(m, "format"@, text_value(self.format));
        let m = put(m, "properties"@, self.properties);
        JsonView::Object(put(m, "additionalProperties"@, self.additional_properties))
    }

    /// Whether the argument must be given.
    pub open spec fn must_be_given(self) -> bool {
        self.required == Some(true)
    }
}

fn put_member(object: Json, key: &str, value: &Option<Json>) -> (r: Json)
    requires
        object@ is Object,
    ensures
        r@ == JsonView::Object(put(object@->Object_0, key@, view_opt(*value))),
{
    match value {
        Some(v) => object.with(key, v.clone()),
        None => object,
    }
}

fn put_text(object: Json, key: &str, value: &Option<String>) -> (r: Json)
    requires
        object@ is Object,
    ensures
        r@ == JsonView::Object(put(object@->Object_0, key@, text_value(view_opt(*value)))),
{
    match value {
        Some(s) => object.with(key, Json::text(s.as_str())),
        None => object,
    }
}

fn put_list(object: Json, key: &str, value: &Option<Vec<Json>>) -> (r: Json)
    requires
        object@ is Object,
    ensures
        r@ == JsonView::Object(put(object@->Object_0, key@, list_value(views_opt(*value)))),
{
    match value {
        Some(v) => {
            let copy: Vec<Json> = duplicate_all(v);
            proof {
                lemma_trees(copy@);
            }
            object.with(key, Json::Array(copy))
        },
        None => object,
    }
}

impl ToolFunctionArg {
    /// An argument that may be left out.
    pub fn new(name: &str, arg_type: &str) -> (r: ToolFunctionArg)
        ensures
            r@ == ArgView::plain(name@, arg_type@),
    {
        ToolFunctionArg {
            name: name.to_owned(),
            arg_type: arg_type.to_owned(),
            required: Some(false),
            description: None,
            default: None,
            max: None,
            min: None,
            enum_values: None,
            items: None,
            format: None,
            properties: None,
            additional_properties: None,
        }
    }

    /// Says whether the argument must be given.
    pub fn required(self, required: bool) -> (r: ToolFunctionArg)
        ensures
            r@ == (ArgView { required: Some(required), ..self@ }),
    {
        ToolFunctionArg { required: Some(required), ..self }
    }

    /// Says what the argument is for.
    pub fn desc(self, description: &str) -> (r: ToolFunctionArg)
        ensures
            r@ == (ArgView { description: Some(description@), ..self@ }),
    {
        ToolFunctionArg { description: Some(description.to_owned()), ..self }
    }

    /// Says what holds where the argument is left out.
    pub fn default(self, default: Json) -> (r: ToolFunctionArg)
        ensures
            r@ == (ArgView { default: Some(default@), ..self@ }),
    {
        ToolFunctionArg { default: Some(default), ..self }
    }

    /// Says the greatest value.
    pub fn max(self, max: Json) -> (r: ToolFunctionArg)
        ensures
            r@ == (ArgView { max: Some(max@), ..self@ }),
    {
        ToolFunctionArg { max: Some(max), ..self }
    }

    /// Says the least value.
    pub fn min(self, min: Json) -> (r: ToolFunctionArg)
        ensures
            r@ == (ArgView { min: Some(min@), ..self@ }),
    {
        ToolFunctionArg { min: Some(min), ..self }
    }

    /// Says which values there are.
    pub fn enum_values(self, values: Vec<Json>) -> (r: ToolFunctionArg)
        ensures
            r@ == (ArgView { enum_values: Some(views(values@)), ..self@ }),
    {
        ToolFunctionArg { enum_values: Some(values), ..self }
    }

    /// Says what the items of a list are.
    pub fn items(self, items: Json) -> (r: ToolFunctionArg)
        ensures
            r@ == (ArgView { items: Some(items@), ..self@ }),
    {
        ToolFunctionArg { items: Some(items), ..self }
    }

    /// Says the format of a text.
    pub fn format(self, format: &str) -> (r: ToolFunctionArg)
        ensures
            r@ == (ArgView { format: Some(format@), ..self@ }),
    {
        ToolFunctionArg { format: Some(format.to_owned()), ..self }
    }

    /// Says what the members of an object are.
    pub fn properties(self, properties: Json) -> (r: ToolFunctionArg)
        ensures
            r@ == (ArgView { properties: Some(properties@), ..self@ }),
    {
        ToolFunctionArg { properties: Some(properties), ..self }
    }

    /// Says what other members of an object may be.
    pub fn additional_properties(self, additional_properties: Json) -> (r: ToolFunctionArg)
        ensures
            r@ == (ArgView { additional_properties: Some(additional_properties@), ..self@ }),
    {
        ToolFunctionArg { additional_properties: Some(additional_properties), ..self }
    }

    /// The description of the argument.
    pub fn schema(&self) -> (r: Json)
        ensures
            r@ == self@.schema(),
    {
        let v: Json = Json::object().with("type", Json::text(self.arg_type.as_str()));
        let v: Json = put_text(v, "description", &self.description);
        let v: Json = put_member(v, "default", &self.default);
        let v: Json = put_member(v, "maximum", &self.max);
        let v: Json = put_member(v, "minimum", &self.min);
        let v: Json = put_list(v, "enum", &self.enum_values);
        let v: Json = put_member(v, "items", &self.items);
        let v: Json = put_text(v, "format", &self.format);
        let v: Json = put_member(v, "properties", &self.properties);
        put_member(v, "additionalProperties", &self.additional_properties)
    }
}

/// The descriptions of arguments by their names; of two with one name, the later counts.
pub open spec fn described(args: Seq<ArgView>) -> Map<Seq<char>, JsonView>
    decreases args.len(),
{
    if args.len() == 0 {
        Map::empty()
    } else {
        described(args.drop_last()).insert(args.last().name, args.last().schema())
    }
}

/// The descriptions of arguments by their names.
pub fn schema_properties(properties: &Vec<ToolFunctionArg>) -> (r: Json)
    ensures
        r@ == JsonView::Object(described(views(properties@))),
{
    let ghost s = views(properties@);
    let mut v: Json = Json::object();
    let mut i: usize = 0;
    assert(s.take(0) =~= Seq::<ArgView>::empty());
    while i < properties.len()
        invariant
            i <= properties@.len(),
            s == views(properties@),
            v@ == JsonView::Object(described(s.take(i as int))),
        decreases properties@.len() - i,
    {
        proof {
            assert(s.take(i + 1).drop_last() =~= s.take(i as int));
            assert(s.take(i + 1).last() == properties@[i as int]@);
        }
        v = v.with(properties[i].name.as_str(), properties[i].schema());
        i = i + 1;
    }
    assert(s.take(i as int) =~= s);
    v
}

/// The names of the arguments that must be given.
pub open spec fn required_names(args: Seq<ArgView>) -> Seq<Seq<char>>
    decreases args.len(),
{
    if args.len() == 0 {
        Seq::empty()
    } else if args.last().must_be_given() {
        required_names(args.drop_last()).push(args.last().name)
    } else {
        required_names(args.drop_last())
    }
}

/// The names of the arguments that must be given.
pub fn schema_required(properties: &Vec<ToolFunctionArg>) -> (r: Vec<String>)
    ensures
        views(r@) == required_names(views(properties@)),
{
    let ghost s = views(properties@);
    let mut names: Vec<String> = Vec::new();
    let mut i: usize = 0;
    assert(s.take(0) =~= Seq::<ArgView>::empty());
    assert(views(names@) =~= Seq::<Seq<char>>::empty());
    while i < properties.len()
        invariant
            i <= properties@.len(),
            s == views(properties@),
            views(names@) == required_names(s.take(i as int)),
        decreases properties@.len() - i,
    {
        proof {
            assert(s.take(i + 1).drop_last() =~= s.take(i as int));
            assert(s.take(i + 1).last() == properties@[i as int]@);
        }
        let must: bool = match properties[i].required {
            Some(b) => b,
            None => false,
        };
        if must {
            let name: String = properties[i].name.clone();
            proof {
                lemma_views_push(names@, name);
            }
            names.push(name);
        }
        i = i + 1;
    }
    assert(s.take(i as int) =~= s);
    names
}

/// Texts as values.
pub open spec fn text_values(s: Seq<Seq<char>>) -> Seq<JsonView> {
    s.map_values(|t: Seq<char>| JsonView::Text(t))
}

/// The description of a tool.
pub open spec fn tool_description(
    name: Seq<char>,
    description: Seq<char>,
    args: Seq<ArgView>,
) -> JsonView {
    let parameters = Map::<Seq<char>, JsonView>::empty().insert(
        "type"@,
        JsonView::Text("object"@),
    ).insert("properties"@, JsonView::Object(described(args))).insert(
        "required"@,
        JsonView::Array(text_values(required_names(args))),
    );
    let function = Map::<Seq<char>, JsonView>::empty().insert("name"@, JsonView::Text(name)).insert(
        "description"@,
        JsonView::Text(description),
    ).insert("parameters"@, JsonView::Object(parameters));
    JsonView::Object(
        Map::<Seq<char>, JsonView>::empty().insert("type"@, JsonView::Text("function"@)).insert(
            "function"@,
            JsonView::Object(function),
        ),
    )
}

/// Arguments that there may be none of.
pub open spec fn args_or_none(o: Option<Seq<ArgView>>) -> Seq<ArgView> {
    match o {
        Some(s) => s,
        None => Seq::empty(),
    }
}

fn describe_tool(name: &str, description: &str, properties: &Vec<ToolFunctionArg>) -> (r: Json)
    ensures
        r@ == tool_description(name@, description@, views(properties@)),
{
    let names: Vec<String> = schema_required(properties);
    let mut required: Vec<Json> = Vec::new();
    let ghost all = text_values(views(names@));
    let mut i: usize = 0;
    assert(views(required@) =~= all.take(0));
    while i < names.len()
        invariant
            i <= names@.len(),
            all == text_values(views(names@)),
            views(required@) == all.take(i as int),
        decreases names@.len() - i,
    {
        let item: Json = Json::text(names[i].as_str());
        proof {
            lemma_views_push(required@, item);
            assert(all.take(i + 1) =~= all.take(i as int).push(item@));
        }
        required.push(item);
        i = i + 1;
    }
    proof {
        assert(all.take(i as int) =~= all);
        lemma_trees(required@);
    }
    let parameters: Json = Json::object().with("type", Json::text("object")).with(
        "properties",
        schema_properties(properties),
    ).with("required", Json::Array(required));
    let function: Json = Json::object().with("name", Json::text(name)).with(
        "description",
        Json::text(description),
    ).with("parameters", parameters);
    Json::object().with("type", Json::text("function")).with("function", function)
}

/// What is known of a tool.
#[derive(Debug)]
pub struct ToolSpec {
    pub schema: Json,
}

impl View for ToolSpec {
    type V = JsonView;

    open spec fn view(&self) -> JsonView {
        self.schema@
    }
}

/// The tools that there are, by their names.
#[derive(Debug)]
pub struct ToolFunctions {
    registry: TextMap<ToolSpec>,
}

/// The tools that the whole client has in common.
pub type ToolRegistry = ToolFunctions;

impl View for ToolFunctions {
    type V = Seq<(Seq<char>, JsonView)>;

    closed spec fn view(&self) -> Seq<(Seq<char>, JsonView)> {
        self.registry@
    }
}

/// The descriptions among entries.
pub open spec fn descriptions(s: Seq<(Seq<char>, JsonView)>) -> Seq<JsonView> {
    s.map_values(|e: (Seq<char>, JsonView)| e.1)
}

/// The names among entries.
pub open spec fn names_of(s: Seq<(Seq<char>, JsonView)>) -> Seq<Seq<char>> {
    s.map_values(|e: (Seq<char>, JsonView)| e.0)
}

/// The descriptions of those tools that are listed, in the order of their names.
pub open spec fn listed_descriptions(
    s: Seq<(Seq<char>, JsonView)>,
    names: Seq<Seq<char>>,
) -> Seq<JsonView>
    decreases s.len(),
{
    if s.len() == 0 {
        Seq::empty()
    } else if names.contains(s.last().0) {
        listed_descriptions(s.drop_last(), names).push(s.last().1)
    } else {
        listed_descriptions(s.drop_last(), names)
    }
}

fn lists(names: &Vec<String>, name: &str) -> (r: bool)
    ensures
        r == views(names@).contains(name@),
{
    let ghost s = views(names@);
    let mut i: usize = 0;
    while i < names.len()
        invariant
            i <= names@.len(),
            s == views(names@),
            forall|j: int| #![trigger s[j]] 0 <= j < i ==> s[j] != name@,
        decreases names@.len() - i,
    {
        assert(s[i as int] == names@[i as int]@);
        if same_text(names[i].as_str(), name) {
            return true;
        }
        i = i + 1;
    }
    false
}

impl ToolFunctions {
    /// No tools.
    pub fn new() -> (r: ToolFunctions)
        ensures
            r@ == Seq::<(Seq<char>, JsonView)>::empty(),
    {
        ToolFunctions { registry: TextMap::new() }
    }

    /// Adds a tool, in place of an earlier one with the same name.
    pub fn register(
        &mut self,
        name: &str,
        description: &str,
        properties: Option<Vec<ToolFunctionArg>>,
    )
        ensures
            final(self)@ == with_entry(
                old(self)@,
                name@,
                tool_description(name@, description@, args_or_none(views_opt(properties))),
            ),
    {
        let args: Vec<ToolFunctionArg> = match properties {
            Some(p) => p,
            None => Vec::new(),
        };
        assert(views(args@) =~= args_or_none(views_opt(properties)));
        self.registry.insert(name, ToolSpec { schema: describe_tool(name, description, &args) });
    }

    /// Whether there is a tool with a name.
    pub fn has_tool(&self, name: &str) -> (r: bool)
        ensures
            r == (lookup(self@, name@) is Some),
    {
        self.registry.get(name).is_some()
    }

    /// The description of a tool.
    pub fn schema(&self, name: &str) -> (r: Option<Json>)
        ensures
            view_opt(r) == lookup(self@, name@),
    {
        match self.registry.get(name) {
            Some(s) => Some(s.schema.clone()),
            None => None,
        }
    }

    /// The names of the tools, in their order.
    pub fn tool_names(&self) -> (r: Vec<String>)
        ensures
            views(r@) == names_of(self@),
            ascending(self@),
    {
        let ghost all = names_of(self@);
        let n: usize = self.registry.len();
        let mut names: Vec<String> = Vec::new();
        let mut i: usize = 0;
        assert(views(names@) =~= all.take(0));
        while i < n
            invariant
                i <= n == self@.len(),
                all == names_of(self@),
                views(names@) == all.take(i as int),
            decreases n - i,
        {
            let name: String = self.registry.key(i).to_owned();
            proof {
                lemma_views_push(names@, name);
                assert(all.take(i + 1) =~= all.take(i as int).push(name@));
            }
            names.push(name);
            i = i + 1;
        }
        assert(all.take(i as int) =~= all);
        names
    }

    /// The descriptions of all tools, in the order of their names; `None` where there are none.
    pub fn schemas(&self) -> (r: Option<Vec<Json>>)
        ensures
            views_opt(r) == if self@.len() == 0 {
                None
            } else {
                Some(descriptions(self@))
            },
            ascending(self@),
    {
        let ghost all = descriptions(self@);
        let n: usize = self.registry.len();
        if n == 0 {
            return None;
        }
        let mut schemas: Vec<Json> = Vec::new();
        let mut i: usize = 0;
        assert(views(schemas@) =~= all.take(0));
        while i < n
            invariant
                i <= n == self@.len(),
                all == descriptions(self@),
                views(schemas@) == all.take(i as int),
            decreases n - i,
        {
            let schema: Json = self.registry.value(i).schema.clone();
            proof {
                lemma_views_push(schemas@, schema);
                assert(all.take(i + 1) =~= all.take(i as int).push(schema@));
            }
            schemas.push(schema);
            i = i + 1;
        }
        assert(all.take(i as int) =~= all);
        Some(schemas)
    }

    /// The descriptions of those tools that are listed, in the order of their names.
    pub fn schemas_filtered_strict(&self, names: &Vec<String>) -> (r: Vec<Json>)
        ensures
            views(r@) == listed_descriptions(self@, views(names@)),
    {
        let ghost s = self@;
        let n: usize = self.registry.len();
        let mut schemas: Vec<Json> = Vec::new();
        let mut i: usize = 0;
        assert(s.take(0) =~= Seq::<(Seq<char>, JsonView)>::empty());
        assert(views(schemas@) =~= Seq::<JsonView>::empty());
        while i < n
            invariant
                i <= n == s.len(),
                s == self@,
                views(schemas@) == listed_descriptions(s.take(i as int), views(names@)),
            decreases n - i,
        {
            proof {
                assert(s.take(i + 1).drop_last() =~= s.take(i as int));
                assert(s.take(i + 1).last() == s[i as int]);
            }
            if lists(names, self.registry.key(i)) {
                let schema: Json = self.registry.value(i).schema.clone();
                proof {
                    lemma_views_push(schemas@, schema);
                }
                schemas.push(schema);
            }
            i = i + 1;
        }
        assert(s.take(i as int) =~= s);
        schemas
    }
}

impl Default for ToolFunctions {
    fn default() -> (r: Self)
        ensures
            r@ == Seq::<(Seq<char>, JsonView)>::empty(),
    {
        ToolFunctions::new()
    }
}

/// A description names its tool, so that tools in the order of their names are also in the order
/// of the names that the model reads.
pub proof fn lemma_description_names_tool(
    name: Seq<char>,
    description: Seq<char>,
    args: Seq<ArgView>,
)
    ensures
        member(tool_description(name, description, args), "function"@) is Some,
        text(
            member(member(tool_description(name, description, args), "function"@)->0, "name"@),
        ) == Some(name),
{
    reveal_strlit("type");
    reveal_strlit("function");
    reveal_strlit("name");
    reveal_strlit("description");
    reveal_strlit("parameters");
    assert("name"@[0] != "description"@[0] && "name"@[0] != "parameters"@[0]);
}

/// Every argument that must be given is described.
pub proof fn lemma_required_are_described(args: Seq<ArgView>, k: int)
    requires
        0 <= k < required_names(args).len(),
    ensures
        described(args).dom().contains(required_names(args)[k]),
    decreases args.len(),
{
    if args.len() > 0 {
        let earlier = required_names(args.drop_last());
        if k < earlier.len() {
            lemma_required_are_described(args.drop_last(), k);
        }
    }
}

/// All that is said of an argument stands in its description, under the names that the model knows,
/// and what is not said does not.
pub proof fn lemma_argument_is_described(a: ArgView)
    ensures
        member(a.schema(), "type"@) == Some(JsonView::Text(a.arg_type)),
        a.description is Some ==> member(a.schema(), "description"@) == Some(
            JsonView::Text(a.description->0),
        ),
        a.description is None ==> member(a.schema(), "description"@) is None,
        member(a.schema(), "default"@) == a.default,
        member(a.schema(), "maximum"@) == a.max,
        member(a.schema(), "minimum"@) == a.min,
        a.enum_values is Some ==> member(a.schema(), "enum"@) == Some(
            JsonView::Array(a.enum_values->0),
        ),
        a.enum_values is None ==> member(a.schema(), "enum"@) is None,
        member(a.schema(), "items"@) == a.items,
        a.format is Some ==> member(a.schema(), "format"@) == Some(JsonView::Text(a.format->0)),
        a.format is None ==> member(a.schema(), "format"@) is None,
        member(a.schema(), "properties"@) == a.properties,
        member(a.schema(), "additionalProperties"@) == a.additional_properties,
{
    reveal_strlit("type");
    reveal_strlit("description");
    reveal_strlit("default");
    reveal_strlit("maximum");
    reveal_strlit("minimum");
    reveal_strlit("enum");
    reveal_strlit("items");
    reveal_strlit("format");
    reveal_strlit("properties");
    reveal_strlit("additionalProperties");
    assert("type"@.len() == 4 && "enum"@.len() == 4 && "items"@.len() == 5);
    assert("format"@.len() == 6 && "default"@.len() == 7 && "maximum"@.len() == 7);
    assert("minimum"@.len() == 7 && "properties"@.len() == 10);
    assert("description"@.len() == 11 && "additionalProperties"@.len() == 20);
    assert("type"@[0] != "enum"@[0]);
    assert("default"@[0] != "maximum"@[0] && "default"@[0] != "minimum"@[0]);
    assert("maximum"@[1] != "minimum"@[1]);
}

/// Every argument of a tool is described under its name, the later of two with one name; and nothing
/// else is described.
pub proof fn lemma_every_argument_is_described(args: Seq<ArgView>, i: int, name: Seq<char>)
    ensures
        0 <= i < args.len() && (forall|j: int| i < j < args.len() ==> (#[trigger] args[j]).name
            != args[i].name) ==> described(args).dom().contains(args[i].name) && described(
            args,
        )[args[i].name] == args[i].schema(),
        described(args).dom().contains(name) <==> exists|j: int| #![trigger args[j]]
            0 <= j < args.len() && args[j].name == name,
    decreases args.len(),
{
    if args.len() > 0 {
        let earlier = args.drop_last();
        lemma_every_argument_is_described(earlier, i, name);
        if 0 <= i < earlier.len() {
            assert(earlier[i] == args[i]);
            if forall|j: int| i < j < args.len() ==> (#[trigger] args[j]).name != args[i].name {
                assert forall|j: int| i < j < earlier.len() implies (#[trigger] earlier[j]).name
                    != earlier[i].name by {
                    assert(earlier[j] == args[j]);
                }
                assert(args[args.len() - 1].name != args[i].name);
            }
        }
        if described(args).dom().contains(name) {
            if args.last().name == name {
                assert(args[args.len() - 1].name == name);
            } else {
                let j = choose|j: int| #![trigger earlier[j]]
                    0 <= j < earlier.len() && earlier[j].name == name;
                assert(args[j].name == name);
            }
        } else {
            assert forall|j: int| #![trigger args[j]] 0 <= j < args.len() implies args[j].name
                != name by {
                if j < earlier.len() {
                    assert(earlier[j] == args[j]);
                }
            }
        }
    }
}

/// The arguments that must be given are told in their order: one behind another for one list of
/// arguments behind another, and each exactly where it must be given.
pub proof fn lemma_required_in_order(a: Seq<ArgView>, b: Seq<ArgView>, x: ArgView)
    ensures
        required_names(a + b) == required_names(a) + required_names(b),
        x.required == Some(true) ==> required_names(seq![x]) == seq![x.name],
        x.required != Some(true) ==> required_names(seq![x]) == Seq::<Seq<char>>::empty(),
    decreases b.len(),
{
    assert(seq![x].drop_last() =~= Seq::<ArgView>::empty());
    assert(required_names(seq![x].drop_last()) =~= Seq::<Seq<char>>::empty());
    assert(required_names(seq![x].drop_last()).push(x.name) =~= seq![x.name]);
    if b.len() == 0 {
        assert(a + b =~= a);
        assert(required_names(a) + required_names(b) =~= required_names(a));
    } else {
        lemma_required_in_order(a, b.drop_last(), x);
        assert((a + b).drop_last() =~= a + b.drop_last());
        assert((a + b).last() == b.last());
        assert(required_names(a + b) =~= required_names(a) + required_names(b));
    }
}

/// The description of a tool is that of a function with its text, its arguments as the members of an
/// object, and the names of those that must be given.
pub proof fn lemma_tool_is_described(
    name: Seq<char>,
    description: Seq<char>,
    args: Seq<ArgView>,
    i: int,
)
    ensures
        ({
            let d = tool_description(name, description, args);
            let function = member(d, "function"@)->0;
            let parameters = member(function, "parameters"@)->0;
            let required = member(parameters, "required"@)->0;
            &&& member(d, "type"@) == Some(JsonView::Text("function"@))
            &&& member(d, "function"@) is Some
            &&& member(function, "name"@) == Some(JsonView::Text(name))
            &&& member(function, "description"@) == Some(JsonView::Text(description))
            &&& member(function, "parameters"@) is Some
            &&& member(parameters, "type"@) == Some(JsonView::Text("object"@))
            &&& member(parameters, "properties"@) == Some(JsonView::Object(described(args)))
            &&& member(parameters, "required"@) is Some
            &&& required is Array
            &&& required->Array_0.len() == required_names(args).len()
            &&& 0 <= i < required_names(args).len() ==> required->Array_0[i] == JsonView::Text(
                required_names(args)[i],
            )
        }),
{
    reveal_strlit("type");
    reveal_strlit("function");
    reveal_strlit("name");
    reveal_strlit("description");
    reveal_strlit("parameters");
    reveal_strlit("properties");
    reveal_strlit("required");
    assert("type"@.len() == 4 && "function"@.len() == 8 && "name"@.len() == 4);
    assert("description"@.len() == 11 && "parameters"@.len() == 10);
    assert("properties"@.len() == 10 && "required"@.len() == 8);
}

} // verus!
