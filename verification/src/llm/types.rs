//! The data of requests, answers and session events.
//!
//! The differences between services are levelled out here; sessions work on these types only.

use crate::double::Real;
use crate::error::{ClientError, ErrorView};
use crate::json::{integer, member, Json, JsonView};
use crate::model::{
    duplicate_all, duplicate_all_option, duplicate_option, view_opt, views, views_opt, Duplicate,
};
use vstd::prelude::*;

verus! {

/// A function that the model wants called, with its arguments as JSON text.
#[derive(Debug)]
pub struct ToolFunctionCall {
    pub name: String,
    pub arguments: String,
}

/// A tool call of the model.
#[derive(Debug)]
pub struct ToolCall {
    pub id: Option<String>,
    pub call_type: Option<String>,
    pub function: ToolFunctionCall,
    pub index: usize,
}

/// What a tool call says.
#[verifier::ext_equal]
pub struct ToolCallView {
    pub id: Option<Seq<char>>,
    pub call_type: Option<Seq<char>>,
    pub name: Seq<char>,
    pub arguments: Seq<char>,
    pub index: usize,
}

impl View for ToolCall {
    type V = ToolCallView;

    open spec fn view(&self) -> ToolCallView {
        ToolCallView {
            id: view_opt(self.id),
            call_type: view_opt(self.call_type),
            name: self.function.name@,
            arguments: self.function.arguments@,
            index: self.index,
        }
    }
}

impl Clone for ToolCall {
    fn clone(&self) -> (r: Self)
        ensures
            r@ == self@,
    {
        ToolCall {
            id: duplicate_option(&self.id),
            call_type: duplicate_option(&self.call_type),
            function: ToolFunctionCall {
                name: self.function.name.clone(),
                arguments: self.function.arguments.clone(),
            },
            index: self.index,
        }
    }
}

impl Duplicate for ToolCall {
    fn duplicate(&self) -> (r: Self) {
        self.clone()
    }
}

/// A message of a conversation.
#[derive(Debug)]
pub struct Message {
    pub role: String,
    pub content: Option<String>,
    pub reasoning_content: Option<String>,
    pub tool_call_id: Option<String>,
    pub tool_calls: Option<Vec<ToolCall>>,
}

/// What a message says.
#[verifier::ext_equal]
pub struct MessageView {
    pub role: Seq<char>,
    pub content: Option<Seq<char>>,
    pub reasoning_content: Option<Seq<char>>,
    pub tool_call_id: Option<Seq<char>>,
    pub tool_calls: Option<Seq<ToolCallView>>,
}

impl View for Message {
    type V = MessageView;

    open spec fn view(&self) -> MessageView {
        MessageView {
            role: self.role@,
            content: view_opt(self.content),
            reasoning_content: view_opt(self.reasoning_content),
            tool_call_id: view_opt(self.tool_call_id),
            tool_calls: views_opt(self.tool_calls),
        }
    }
}

impl Clone for Message {
    fn clone(&self) -> (r: Self)
        ensures
            r@ == self@,
    {
        Message {
            role: self.role.clone(),
            content: duplicate_option(&self.content),
            reasoning_content: duplicate_option(&self.reasoning_content),
            tool_call_id: duplicate_option(&self.tool_call_id),
            tool_calls: duplicate_all_option(&self.tool_calls),
        }
    }
}

impl Duplicate for Message {
    fn duplicate(&self) -> (r: Self) {
        self.clone()
    }
}

impl MessageView {
    /// A message with a role and a content, and nothing else.
    pub open spec fn plain(role: Seq<char>, content: Seq<char>) -> MessageView {
        MessageView {
            role,
            content: Some(content),
            reasoning_content: None,
            tool_call_id: None,
            tool_calls: None,
        }
    }

    /// Whether the message calls tools.
    pub open spec fn calls_tools(self) -> bool {
        match self.tool_calls {
            Some(calls) => calls.len() > 0,
            None => false,
        }
    }
}

/// The four roles are different.
pub proof fn lemma_roles()
    ensures
        "system"@ != "user"@,
        "system"@ != "assistant"@,
        "system"@ != "tool"@,
        "user"@ != "assistant"@,
        "user"@ != "tool"@,
        "assistant"@ != "tool"@,
{
    reveal_strlit("system");
    reveal_strlit("user");
    reveal_strlit("assistant");
    reveal_strlit("tool");
    assert("system"@.len() == 6 && "user"@.len() == 4 && "assistant"@.len() == 9);
    assert("tool"@[0] == 't' && "user"@[0] == 'u');
}

/// An owned copy of an optional text.
pub fn owned(o: Option<&str>) -> (r: Option<String>)
    ensures
        match o {
            Some(s) => view_opt(r) == Some(s@),
            None => r is None,
        },
{
    match o {
        Some(s) => Some(s.to_owned()),
        None => None,
    }
}

/// The view of an optional borrowed text.
pub open spec fn borrowed(o: Option<&str>) -> Option<Seq<char>> {
    match o {
        Some(s) => Some(s@),
        None => None,
    }
}

impl Message {
    /// An instruction to the model.
    pub fn system(content: &str) -> (r: Message)
        ensures
            r@ == MessageView::plain("system"@, content@),
    {
        Message {
            role: "system".to_owned(),
            content: Some(content.to_owned()),
            reasoning_content: None,
            tool_call_id: None,
            tool_calls: None,
        }
    }

    /// What the user said.
    pub fn user(content: &str) -> (r: Message)
        ensures
            r@ == MessageView::plain("user"@, content@),
    {
        Message {
            role: "user".to_owned(),
            content: Some(content.to_owned()),
            reasoning_content: None,
            tool_call_id: None,
            tool_calls: None,
        }
    }

    /// What the model said, thought and wants called.
    pub fn assistant(
        content: Option<&str>,
        reasoning: Option<&str>,
        tool_calls: Option<Vec<ToolCall>>,
    ) -> (r: Message)
        ensures
            r@ == (MessageView {
                role: "assistant"@,
                content: borrowed(content),
                reasoning_content: borrowed(reasoning),
                tool_call_id: None,
                tool_calls: views_opt(tool_calls),
            }),
    {
        Message {
            role: "assistant".to_owned(),
            content: owned(content),
            reasoning_content: owned(reasoning),
            tool_call_id: None,
            tool_calls,
        }
    }

    /// The result of a tool call.
    pub fn tool(content: &str, tool_call_id: &str) -> (r: Message)
        ensures
            r@ == (MessageView {
                tool_call_id: Some(tool_call_id@),
                ..MessageView::plain("tool"@, content@)
            }),
    {
        Message {
            role: "tool".to_owned(),
            content: Some(content.to_owned()),
            reasoning_content: None,
            tool_call_id: Some(tool_call_id.to_owned()),
            tool_calls: None,
        }
    }
}

/// Whether the model is to think before it answers.
#[derive(Debug)]
pub struct ThinkingType {
    pub thinking_type: String,
}

impl View for ThinkingType {
    type V = Seq<char>;

    open spec fn view(&self) -> Seq<char> {
        self.thinking_type@
    }
}

impl ThinkingType {
    pub fn enabled() -> (r: ThinkingType)
        ensures
            r@ == "enabled"@,
    {
        ThinkingType { thinking_type: "enabled".to_owned() }
    }

    pub fn disabled() -> (r: ThinkingType)
        ensures
            r@ == "disabled"@,
    {
        ThinkingType { thinking_type: "disabled".to_owned() }
    }
}

impl Clone for ThinkingType {
    fn clone(&self) -> (r: Self)
        ensures
            r@ == self@,
    {
        ThinkingType { thinking_type: self.thinking_type.clone() }
    }
}

impl Duplicate for ThinkingType {
    fn duplicate(&self) -> (r: Self) {
        self.clone()
    }
}

/// How much the model is to think.
#[derive(Debug)]
pub struct ThinkingEffort {
    pub effort: String,
}

impl View for ThinkingEffort {
    type V = Seq<char>;

    open spec fn view(&self) -> Seq<char> {
        self.effort@
    }
}

impl Clone for ThinkingEffort {
    fn clone(&self) -> (r: Self)
        ensures
            r@ == self@,
    {
        ThinkingEffort { effort: self.effort.clone() }
    }
}

impl Duplicate for ThinkingEffort {
    fn duplicate(&self) -> (r: Self) {
        self.clone()
    }
}

/// A request to the service.
#[derive(Debug)]
pub struct ChatRequest {
    pub messages: Vec<Message>,
    pub model: String,
    pub thinking: Option<ThinkingType>,
    pub thinking_effort: Option<ThinkingEffort>,
    pub frequency_penalty: Option<Real>,
    pub max_tokens: Option<i64>,
    pub presence_penalty: Option<Real>,
    pub response_format: Option<Json>,
    pub stop: Option<Vec<String>>,
    pub stream: Option<bool>,
    pub stream_options: Option<Json>,
    pub temperature: Option<Real>,
    pub top_p: Option<Real>,
    pub tools: Option<Vec<Json>>,
    pub tool_choice: Option<String>,
    pub logprobs: Option<bool>,
    pub top_logprobs: Option<i64>,
    pub n: Option<i32>,
}

/// What a request says.
#[verifier::ext_equal]
pub struct RequestView {
    pub messages: Seq<MessageView>,
    pub model: Seq<char>,
    pub thinking: Option<Seq<char>>,
    pub thinking_effort: Option<Seq<char>>,
    pub frequency_penalty: Option<Real>,
    pub max_tokens: Option<i64>,
    pub presence_penalty: Option<Real>,
    pub response_format: Option<JsonView>,
    pub stop: Option<Seq<Seq<char>>>,
    pub stream: Option<bool>,
    pub stream_options: Option<JsonView>,
    pub temperature: Option<Real>,
    pub top_p: Option<Real>,
    pub tools: Option<Seq<JsonView>>,
    pub tool_choice: Option<Seq<char>>,
    pub logprobs: Option<bool>,
    pub top_logprobs: Option<i64>,
    pub n: Option<i32>,
}

impl View for ChatRequest {
    type V = RequestView;

    open spec fn view(&self) -> RequestView {
        RequestView {
            messages: views(self.messages@),
            model: self.model@,
            thinking: view_opt(self.thinking),
            thinking_effort: view_opt(self.thinking_effort),
            frequency_penalty: self.frequency_penalty,
            max_tokens: self.max_tokens,
            presence_penalty: self.presence_penalty,
            response_format: view_opt(self.response_format),
            stop: views_opt(self.stop),
            stream: self.stream,
            stream_options: view_opt(self.stream_options),
            temperature: self.temperature,
            top_p: self.top_p,
            tools: views_opt(self.tools),
            tool_choice: view_opt(self.tool_choice),
            logprobs: self.logprobs,
            top_logprobs: self.top_logprobs,
            n: self.n,
        }
    }
}

impl RequestView {
    /// The request with other messages.
    pub open spec fn with_messages(self, messages: Seq<MessageView>) -> RequestView {
        RequestView { messages, ..self }
    }

    /// A request that says nothing but that the model may choose among its tools.
    pub open spec fn blank() -> RequestView {
        RequestView {
            messages: Seq::empty(),
            model: Seq::empty(),
            thinking: None,
            thinking_effort: None,
            frequency_penalty: None,
            max_tokens: None,
            presence_penalty: None,
            response_format: None,
            stop: None,
            stream: None,
            stream_options: None,
            temperature: None,
            top_p: None,
            tools: None,
            tool_choice: Some("auto"@),
            logprobs: None,
            top_logprobs: None,
            n: None,
        }
    }
}

impl Default for ChatRequest {
    fn default() -> (r: Self)
        ensures
            r@ == RequestView::blank(),
    {
        let r: ChatRequest = ChatRequest {
            messages: Vec::new(),
            model: String::new(),
            thinking: None,
            thinking_effort: None,
            frequency_penalty: None,
            max_tokens: None,
            presence_penalty: None,
            response_format: None,
            stop: None,
            stream: None,
            stream_options: None,
            temperature: None,
            top_p: None,
            tools: None,
            tool_choice: Some("auto".to_owned()),
            logprobs: None,
            top_logprobs: None,
            n: None,
        };
        assert(views(r.messages@) =~= Seq::<MessageView>::empty());
        r
    }
}

impl Clone for ChatRequest {
    fn clone(&self) -> (r: Self)
        ensures
            r@ == self@,
    {
        ChatRequest {
            messages: duplicate_all(&self.messages),
            model: self.model.clone(),
            thinking: duplicate_option(&self.thinking),
            thinking_effort: duplicate_option(&self.thinking_effort),
            frequency_penalty: self.frequency_penalty,
            max_tokens: self.max_tokens,
            presence_penalty: self.presence_penalty,
            response_format: duplicate_option(&self.response_format),
            stop: duplicate_all_option(&self.stop),
            stream: self.stream,
            stream_options: duplicate_option(&self.stream_options),
            temperature: self.temperature,
            top_p: self.top_p,
            tools: duplicate_all_option(&self.tools),
            tool_choice: duplicate_option(&self.tool_choice),
            logprobs: self.logprobs,
            top_logprobs: self.top_logprobs,
            n: self.n,
        }
    }
}

/// Token counts of one request, or of several added up.
#[derive(Clone, Copy, Debug, PartialEq, Eq, Structural)]
pub struct Usage {
    pub prompt_tokens: i64,
    pub completion_tokens: i64,
    pub total_tokens: i64,
    /// Input read from the cache of the service; `None` where the service does not tell.
    pub cached_prompt_tokens: Option<i64>,
    /// Input written to the cache of the service; `None` where the service does not tell.
    pub cache_creation_prompt_tokens: Option<i64>,
    /// How many requests are added up.
    pub request_count: u32,
    /// How many of them told what was read from the cache.
    pub cache_usage_known_requests: u32,
    /// How many of them told what was written to the cache.
    pub cache_creation_usage_known_requests: u32,
}

/// Whether a count stands for a single request.
pub fn is_one_request(value: &u32) -> (r: bool)
    ensures
        r == (*value == 1),
{
    *value == 1
}

/// Whether a count is zero.
pub fn is_zero_u32(value: &u32) -> (r: bool)
    ensures
        r == (*value == 0),
{
    *value == 0
}

/// The greater of two numbers.
pub open spec fn greater(a: i64, b: i64) -> i64 {
    if a < b {
        b
    } else {
        a
    }
}

/// The greater of two known numbers, or the known one.
pub open spec fn greatest_known(a: Option<i64>, b: Option<i64>) -> Option<i64> {
    match (a, b) {
        (Some(x), Some(y)) => Some(greater(x, y)),
        (Some(x), None) => Some(x),
        (None, _) => b,
    }
}

/// A number brought into the range of `i64`.
pub open spec fn bounded(n: int) -> i64 {
    if n < i64::MIN {
        i64::MIN
    } else if n > i64::MAX {
        i64::MAX
    } else {
        n as i64
    }
}

/// The sum of two known numbers, or the known one.
pub open spec fn sum_of_known(a: Option<i64>, b: Option<i64>) -> Option<i64> {
    match (a, b) {
        (Some(x), Some(y)) => Some(bounded(x + y)),
        (Some(x), None) => Some(x),
        (None, _) => b,
    }
}

/// The sum of two counts, at most the greatest `u32`.
pub open spec fn count_sum(a: u32, b: u32) -> u32 {
    if a + b > u32::MAX {
        u32::MAX
    } else {
        (a + b) as u32
    }
}

/// One for a known number, zero for an unknown one.
pub open spec fn known(o: Option<i64>) -> u32 {
    if o is Some {
        1
    } else {
        0
    }
}

/// The greater of two known numbers, or the known one.
pub fn max_known(current: Option<i64>, update: Option<i64>) -> (r: Option<i64>)
    ensures
        r == greatest_known(current, update),
{
    match (current, update) {
        (Some(x), Some(y)) => Some(max_i64(x, y)),
        (Some(x), None) => Some(x),
        (None, y) => y,
    }
}

/// The sum of two known numbers, or the known one.
pub fn sum_known(current: Option<i64>, request: Option<i64>) -> (r: Option<i64>)
    ensures
        r == sum_of_known(current, request),
{
    match (current, request) {
        (Some(x), Some(y)) => Some(add_bounded(x, y)),
        (Some(x), None) => Some(x),
        (None, y) => y,
    }
}

fn max_i64(a: i64, b: i64) -> (r: i64)
    ensures
        r == greater(a, b),
{
    if a < b {
        b
    } else {
        a
    }
}

fn add_bounded(a: i64, b: i64) -> (r: i64)
    ensures
        r == bounded(a + b),
{
    let sum: i128 = a as i128 + b as i128;
    if sum < i64::MIN as i128 {
        i64::MIN
    } else if sum > i64::MAX as i128 {
        i64::MAX
    } else {
        sum as i64
    }
}

fn known_count(o: Option<i64>) -> (r: u32)
    ensures
        r == known(o),
{
    if o.is_some() {
        1
    } else {
        0
    }
}

/// A number under a key of an object, if it is an integer and not negative.
pub open spec fn non_negative(v: JsonView, key: Seq<char>) -> Option<i64> {
    match integer(member(v, key)) {
        Some(n) if n >= 0 => Some(n as i64),
        _ => None,
    }
}

/// A number under a key of an object that is itself a member of an object.
pub open spec fn nested_non_negative(v: JsonView, outer: Seq<char>, key: Seq<char>) -> Option<i64> {
    match member(v, outer) {
        Some(inner) => non_negative(inner, key),
        None => None,
    }
}

/// The first of two numbers that is known.
pub open spec fn first_known(a: Option<i64>, b: Option<i64>) -> Option<i64> {
    if a is Some {
        a
    } else {
        b
    }
}

/// A known number, or zero.
pub open spec fn or_zero(a: Option<i64>) -> i64 {
    match a {
        Some(n) => n,
        None => 0,
    }
}

/// The input read from the cache: told outright, as cache hits, as cache reads, or in the details
/// of the input.
pub open spec fn usage_cached(v: JsonView) -> Option<i64> {
    first_known(
        non_negative(v, "cached_prompt_tokens"@),
        first_known(
            non_negative(v, "prompt_cache_hit_tokens"@),
            first_known(
                non_negative(v, "cache_read_input_tokens"@),
                first_known(
                    nested_non_negative(v, "prompt_tokens_details"@, "cached_tokens"@),
                    nested_non_negative(v, "input_tokens_details"@, "cached_tokens"@),
                ),
            ),
        ),
    )
}

/// The input written to the cache.
pub open spec fn usage_created(v: JsonView) -> Option<i64> {
    first_known(
        non_negative(v, "cache_creation_prompt_tokens"@),
        non_negative(v, "cache_creation_input_tokens"@),
    )
}

/// All input: told outright, as hits and misses together, or as uncached input to which the cache
/// reads and writes are added.
pub open spec fn usage_prompt(v: JsonView) -> i64 {
    let hit = non_negative(v, "prompt_cache_hit_tokens"@);
    let miss = non_negative(v, "prompt_cache_miss_tokens"@);
    let uncached = non_negative(v, "input_tokens"@);
    if non_negative(v, "prompt_tokens"@) is Some {
        or_zero(non_negative(v, "prompt_tokens"@))
    } else if hit is Some && miss is Some {
        bounded(hit->0 + miss->0)
    } else if uncached is Some {
        bounded(
            bounded(
                uncached->0 + or_zero(non_negative(v, "cache_read_input_tokens"@)),
            ) + or_zero(non_negative(v, "cache_creation_input_tokens"@)),
        )
    } else {
        0
    }
}

/// All output.
pub open spec fn usage_completion(v: JsonView) -> i64 {
    or_zero(
        first_known(non_negative(v, "completion_tokens"@), non_negative(v, "output_tokens"@)),
    )
}

/// The counts that an answer of a service tells, whichever way the service names them.
pub open spec fn usage_of(v: JsonView) -> Usage {
    let prompt_tokens = usage_prompt(v);
    let completion_tokens = usage_completion(v);
    Usage {
        prompt_tokens,
        completion_tokens,
        total_tokens: match non_negative(v, "total_tokens"@) {
            Some(n) => n,
            None => bounded(prompt_tokens + completion_tokens),
        },
        cached_prompt_tokens: usage_cached(v),
        cache_creation_prompt_tokens: usage_created(v),
        request_count: 1,
        cache_usage_known_requests: known(usage_cached(v)),
        cache_creation_usage_known_requests: known(usage_created(v)),
    }
}

fn read_non_negative(v: &Json, key: &str) -> (r: Option<i64>)
    ensures
        r == non_negative(v@, key@),
{
    match v.get(key) {
        Some(j) => match j.as_i64() {
            Some(n) => if n >= 0 {
                Some(n)
            } else {
                None
            },
            None => None,
        },
        None => None,
    }
}

fn read_nested(v: &Json, outer: &str, key: &str) -> (r: Option<i64>)
    ensures
        r == nested_non_negative(v@, outer@, key@),
{
    match v.get(outer) {
        Some(inner) => read_non_negative(inner, key),
        None => None,
    }
}

fn first_of(a: Option<i64>, b: Option<i64>) -> (r: Option<i64>)
    ensures
        r == first_known(a, b),
{
    if a.is_some() {
        a
    } else {
        b
    }
}

fn value_or_zero(a: Option<i64>) -> (r: i64)
    ensures
        r == or_zero(a),
{
    match a {
        Some(n) => n,
        None => 0,
    }
}

impl Default for Usage {
    fn default() -> (r: Self)
        ensures
            r == (Usage {
                prompt_tokens: 0,
                completion_tokens: 0,
                total_tokens: 0,
                cached_prompt_tokens: None,
                cache_creation_prompt_tokens: None,
                request_count: 1,
                cache_usage_known_requests: 0,
                cache_creation_usage_known_requests: 0,
            }),
    {
        Usage {
            prompt_tokens: 0,
            completion_tokens: 0,
            total_tokens: 0,
            cached_prompt_tokens: None,
            cache_creation_prompt_tokens: None,
            request_count: 1,
            cache_usage_known_requests: 0,
            cache_creation_usage_known_requests: 0,
        }
    }
}

impl Usage {
    /// The counts after another report on the same request: the greatest of each kind, not the sum.
    pub open spec fn merged(self, update: Usage) -> Usage {
        let cached = greatest_known(self.cached_prompt_tokens, update.cached_prompt_tokens);
        let created = greatest_known(
            self.cache_creation_prompt_tokens,
            update.cache_creation_prompt_tokens,
        );
        Usage {
            prompt_tokens: greater(self.prompt_tokens, update.prompt_tokens),
            completion_tokens: greater(self.completion_tokens, update.completion_tokens),
            total_tokens: greater(self.total_tokens, update.total_tokens),
            cached_prompt_tokens: cached,
            cache_creation_prompt_tokens: created,
            request_count: 1,
            cache_usage_known_requests: known(cached),
            cache_creation_usage_known_requests: known(created),
        }
    }

    /// The counts with those of another request added.
    pub open spec fn accumulated(self, request: Usage) -> Usage {
        Usage {
            prompt_tokens: bounded(self.prompt_tokens + request.prompt_tokens),
            completion_tokens: bounded(self.completion_tokens + request.completion_tokens),
            total_tokens: bounded(self.total_tokens + request.total_tokens),
            cached_prompt_tokens: sum_of_known(
                self.cached_prompt_tokens,
                request.cached_prompt_tokens,
            ),
            cache_creation_prompt_tokens: sum_of_known(
                self.cache_creation_prompt_tokens,
                request.cache_creation_prompt_tokens,
            ),
            request_count: count_sum(self.request_count, request.request_count),
            cache_usage_known_requests: count_sum(
                self.cache_usage_known_requests,
                request.cache_usage_known_requests,
            ),
            cache_creation_usage_known_requests: count_sum(
                self.cache_creation_usage_known_requests,
                request.cache_creation_usage_known_requests,
            ),
        }
    }

    /// Reads the counts out of a JSON object.
    pub fn deserialize(value: &Json) -> (r: Result<Usage, String>)
        ensures
            match r {
                Ok(usage) => value@ is Object && usage == usage_of(value@),
                Err(message) => !(value@ is Object) && message@ == "usage 必须是 JSON 对象"@,
            },
    {
        match value {
            Json::Object(_) => {},
            _ => {
                return Err("usage 必须是 JSON 对象".to_owned());
            },
        }
        let direct_prompt: Option<i64> = read_non_negative(value, "prompt_tokens");
        let input_tokens: Option<i64> = read_non_negative(value, "input_tokens");
        let cache_read_input: Option<i64> = read_non_negative(value, "cache_read_input_tokens");
        let cache_creation_input: Option<i64> = read_non_negative(
            value,
            "cache_creation_input_tokens",
        );
        let cache_hit: Option<i64> = read_non_negative(value, "prompt_cache_hit_tokens");
        let cache_miss: Option<i64> = read_non_negative(value, "prompt_cache_miss_tokens");
        let nested_cached: Option<i64> = first_of(
            read_nested(value, "prompt_tokens_details", "cached_tokens"),
            read_nested(value, "input_tokens_details", "cached_tokens"),
        );
        let cached_prompt_tokens: Option<i64> = first_of(
            read_non_negative(value, "cached_prompt_tokens"),
            first_of(cache_hit, first_of(cache_read_input, nested_cached)),
        );
        let cache_creation_prompt_tokens: Option<i64> = first_of(
            read_non_negative(value, "cache_creation_prompt_tokens"),
            cache_creation_input,
        );
        let prompt_tokens: i64 = match (direct_prompt, cache_hit, cache_miss, input_tokens) {
            (Some(n), _, _, _) => n,
            (None, Some(hit), Some(miss), _) => add_bounded(hit, miss),
            (None, _, _, Some(input)) => add_bounded(
                add_bounded(input, value_or_zero(cache_read_input)),
                value_or_zero(cache_creation_input),
            ),
            (None, _, _, None) => 0,
        };
        let completion_tokens: i64 = value_or_zero(
            first_of(
                read_non_negative(value, "completion_tokens"),
                read_non_negative(value, "output_tokens"),
            ),
        );
        let total_tokens: i64 = match read_non_negative(value, "total_tokens") {
            Some(n) => n,
            None => add_bounded(prompt_tokens, completion_tokens),
        };
        Ok(
            Usage {
                prompt_tokens,
                completion_tokens,
                total_tokens,
                cached_prompt_tokens,
                cache_creation_prompt_tokens,
                request_count: 1,
                cache_usage_known_requests: known_count(cached_prompt_tokens),
                cache_creation_usage_known_requests: known_count(cache_creation_prompt_tokens),
            },
        )
    }

    /// Takes in another report on the same request.
    pub fn merge_request_update(&mut self, update: Usage)
        ensures
            *final(self) == old(self).merged(update),
    {
        self.prompt_tokens = max_i64(self.prompt_tokens, update.prompt_tokens);
        self.completion_tokens = max_i64(self.completion_tokens, update.completion_tokens);
        self.total_tokens = max_i64(self.total_tokens, update.total_tokens);
        self.cached_prompt_tokens =
        max_known(self.cached_prompt_tokens, update.cached_prompt_tokens);
        self.cache_creation_prompt_tokens =
        max_known(self.cache_creation_prompt_tokens, update.cache_creation_prompt_tokens);
        self.request_count = 1;
        self.cache_usage_known_requests = known_count(self.cached_prompt_tokens);
        self.cache_creation_usage_known_requests = known_count(self.cache_creation_prompt_tokens);
    }

    /// Adds the counts of another request.
    pub fn accumulate_request(&mut self, request: &Usage)
        ensures
            *final(self) == old(self).accumulated(*request),
    {
        self.prompt_tokens = add_bounded(self.prompt_tokens, request.prompt_tokens);
        self.completion_tokens = add_bounded(self.completion_tokens, request.completion_tokens);
        self.total_tokens = add_bounded(self.total_tokens, request.total_tokens);
        self.cached_prompt_tokens =
        sum_known(self.cached_prompt_tokens, request.cached_prompt_tokens);
        self.cache_creation_prompt_tokens =
        sum_known(self.cache_creation_prompt_tokens, request.cache_creation_prompt_tokens);
        self.request_count = self.request_count.saturating_add(request.request_count);
        self.cache_usage_known_requests =
        self.cache_usage_known_requests.saturating_add(request.cache_usage_known_requests);
        self.cache_creation_usage_known_requests =
        self.cache_creation_usage_known_requests.saturating_add(
            request.cache_creation_usage_known_requests,
        );
    }

    /// Whether the counts are those of a single request.
    pub open spec fn single(self) -> bool {
        &&& self.request_count == 1
        &&& self.cache_usage_known_requests == known(self.cached_prompt_tokens)
        &&& self.cache_creation_usage_known_requests == known(self.cache_creation_prompt_tokens)
    }
}

/// Reports on one request can be taken in in any order and repeatedly: the result depends only on
/// which reports there were.
pub proof fn lemma_merge_order(a: Usage, b: Usage, c: Usage)
    ensures
        a.merged(b) == b.merged(a),
        a.merged(b).merged(c) == a.merged(b.merged(c)),
        a.single() ==> a.merged(a) == a,
        a.merged(b).merged(b) == a.merged(b),
        a.merged(b).single(),
{
}

/// Adding requests up neither loses nor invents requests, and keeps how many of them told about
/// the cache, as long as the counts fit.
pub proof fn lemma_accumulate_coverage(a: Usage, b: Usage)
    requires
        a.request_count + b.request_count <= u32::MAX,
        a.cache_usage_known_requests <= a.request_count,
        b.cache_usage_known_requests <= b.request_count,
        a.cache_creation_usage_known_requests <= a.request_count,
        b.cache_creation_usage_known_requests <= b.request_count,
    ensures
        a.accumulated(b).request_count == a.request_count + b.request_count,
        a.accumulated(b).cache_usage_known_requests == a.cache_usage_known_requests
            + b.cache_usage_known_requests,
        a.accumulated(b).cache_usage_known_requests <= a.accumulated(b).request_count,
        a.accumulated(b).cache_creation_usage_known_requests
            == a.cache_creation_usage_known_requests + b.cache_creation_usage_known_requests,
        a.accumulated(b).cache_creation_usage_known_requests <= a.accumulated(b).request_count,
        a.accumulated(b) == b.accumulated(a),
{
}

/// One answer among those of a response.
#[derive(Debug)]
pub struct Choice {
    pub index: i64,
    pub message: Message,
    pub finish_reason: String,
}

/// What an answer says.
#[verifier::ext_equal]
pub struct ChoiceView {
    pub index: i64,
    pub message: MessageView,
    pub finish_reason: Seq<char>,
}

impl View for Choice {
    type V = ChoiceView;

    open spec fn view(&self) -> ChoiceView {
        ChoiceView {
            index: self.index,
            message: self.message@,
            finish_reason: self.finish_reason@,
        }
    }
}

/// A response that came in one piece.
#[derive(Debug)]
pub struct ChatResponse {
    pub id: String,
    pub object: String,
    pub created: i64,
    pub model: String,
    pub choices: Vec<Choice>,
    pub usage: Option<Usage>,
}

/// A piece of an answer.
#[derive(Debug)]
pub struct Delta {
    pub role: Option<String>,
    pub content: Option<String>,
    pub reasoning_content: Option<String>,
    /// All content so far, where a service repeats it with every piece.
    pub content_snapshot: Option<String>,
    /// All thinking so far, where a service repeats it with every piece.
    pub reasoning_content_snapshot: Option<String>,
    pub tool_call_id: Option<String>,
    pub tool_calls: Option<Vec<ToolCall>>,
}

/// What a piece of an answer says.
#[verifier::ext_equal]
pub struct DeltaView {
    pub content: Option<Seq<char>>,
    pub reasoning_content: Option<Seq<char>>,
    pub content_snapshot: Option<Seq<char>>,
    pub reasoning_content_snapshot: Option<Seq<char>>,
    pub tool_calls: Option<Seq<ToolCallView>>,
}

impl View for Delta {
    type V = DeltaView;

    open spec fn view(&self) -> DeltaView {
        DeltaView {
            content: view_opt(self.content),
            reasoning_content: view_opt(self.reasoning_content),
            content_snapshot: view_opt(self.content_snapshot),
            reasoning_content_snapshot: view_opt(self.reasoning_content_snapshot),
            tool_calls: views_opt(self.tool_calls),
        }
    }
}

/// A piece of one answer among those of a response.
#[derive(Debug)]
pub struct ChoiceStream {
    pub index: i64,
    pub delta: Delta,
    pub finish_reason: Option<String>,
}

/// What a piece of one answer says.
#[verifier::ext_equal]
pub struct ChoiceStreamView {
    pub delta: DeltaView,
    pub finish_reason: Option<Seq<char>>,
}

impl View for ChoiceStream {
    type V = ChoiceStreamView;

    open spec fn view(&self) -> ChoiceStreamView {
        ChoiceStreamView { delta: self.delta@, finish_reason: view_opt(self.finish_reason) }
    }
}

/// A piece of a response that comes as a stream.
#[derive(Debug)]
pub struct ChatResponseStream {
    pub id: String,
    pub object: String,
    pub choices: Vec<ChoiceStream>,
    pub created: i64,
    pub model: String,
    pub system_fingerprint: Option<String>,
    pub usage: Option<Usage>,
}

/// What a piece of a response says.
#[verifier::ext_equal]
pub struct ChunkView {
    pub choices: Seq<ChoiceStreamView>,
    pub usage: Option<Usage>,
}

impl View for ChatResponseStream {
    type V = ChunkView;

    open spec fn view(&self) -> ChunkView {
        ChunkView { choices: views(self.choices@), usage: self.usage }
    }
}

/// How a turn ended.
#[derive(Debug)]
pub enum TurnStatus {
    Completed,
    Cancelled,
    Interrupted,
    Error(ClientError),
}

/// What the end of a turn says.
#[verifier::ext_equal]
pub enum StatusView {
    Completed,
    Cancelled,
    Interrupted,
    Error(ErrorView),
}

impl View for TurnStatus {
    type V = StatusView;

    open spec fn view(&self) -> StatusView {
        match *self {
            TurnStatus::Completed => StatusView::Completed,
            TurnStatus::Cancelled => StatusView::Cancelled,
            TurnStatus::Interrupted => StatusView::Interrupted,
            TurnStatus::Error(e) => StatusView::Error(e@),
        }
    }
}

impl Clone for TurnStatus {
    fn clone(&self) -> (r: Self)
        ensures
            r@ == self@,
    {
        match self {
            TurnStatus::Completed => TurnStatus::Completed,
            TurnStatus::Cancelled => TurnStatus::Cancelled,
            TurnStatus::Interrupted => TurnStatus::Interrupted,
            TurnStatus::Error(e) => TurnStatus::Error(e.clone()),
        }
    }
}

/// The clock's time, opaque here.
#[verifier::external_type_specification]
#[verifier::external_body]
pub struct ExSystemTime(std::time::SystemTime);

/// When an event happened, and its place in the turn.
#[derive(Debug)]
pub struct EventInfo {
    pub time_stamp: std::time::SystemTime,
    pub seq: u64,
    pub turn_id: u64,
}

/// What happened in a stream.
#[derive(Debug)]
#[allow(inconsistent_fields)]
pub enum DecoderEventPayload {
    TurnStart { model: String },
    AssistantContentDelta { delta: String },
    AssistantReasoningDelta { delta: String },
    ToolCallStart { index: usize, tool_name: String },
    ToolCallDelta { index: usize, tool_name: Option<String>, args: String },
    ToolCallsRequired,
    TurnEnd { status: TurnStatus, finish_reason: Option<String>, usage: Option<Usage> },
}

/// What an event of a stream says.
#[verifier::ext_equal]
#[allow(inconsistent_fields)]
pub enum PayloadView {
    TurnStart { model: Seq<char> },
    AssistantContentDelta { delta: Seq<char> },
    AssistantReasoningDelta { delta: Seq<char> },
    ToolCallStart { index: usize, tool_name: Seq<char> },
    ToolCallDelta { index: usize, tool_name: Option<Seq<char>>, args: Seq<char> },
    ToolCallsRequired,
    TurnEnd { status: StatusView, finish_reason: Option<Seq<char>>, usage: Option<Usage> },
}

impl View for DecoderEventPayload {
    type V = PayloadView;

    open spec fn view(&self) -> PayloadView {
        match *self {
            DecoderEventPayload::TurnStart { model } => PayloadView::TurnStart { model: model@ },
            DecoderEventPayload::AssistantContentDelta { delta } =>
                PayloadView::AssistantContentDelta { delta: delta@ },
            DecoderEventPayload::AssistantReasoningDelta { delta } =>
                PayloadView::AssistantReasoningDelta { delta: delta@ },
            DecoderEventPayload::ToolCallStart { index, tool_name } =>
                PayloadView::ToolCallStart { index, tool_name: tool_name@ },
            DecoderEventPayload::ToolCallDelta { index, tool_name, args } =>
                PayloadView::ToolCallDelta { index, tool_name: view_opt(tool_name), args: args@ },
            DecoderEventPayload::ToolCallsRequired => PayloadView::ToolCallsRequired,
            DecoderEventPayload::TurnEnd { status, finish_reason, usage } =>
                PayloadView::TurnEnd {
                    status: status@,
                    finish_reason: view_opt(finish_reason),
                    usage,
                },
        }
    }
}

/// An event of a stream.
#[derive(Debug)]
pub struct DecoderEvent {
    pub event_info: EventInfo,
    pub payload: DecoderEventPayload,
}

/// What an event says, but for the time.
#[verifier::ext_equal]
pub struct EventView {
    pub seq: u64,
    pub turn_id: u64,
    pub payload: PayloadView,
}

impl View for DecoderEvent {
    type V = EventView;

    open spec fn view(&self) -> EventView {
        EventView {
            seq: self.event_info.seq,
            turn_id: self.event_info.turn_id,
            payload: self.payload@,
        }
    }
}

/// What a look at the next request tells, before anything is sent.
#[derive(Debug)]
pub struct RequestPreflight {
    pub estimated_input_tokens: u64,
    pub context_window_tokens: Option<u64>,
    pub output_reserve_tokens: Option<u64>,
    pub safety_reserve_tokens: Option<u64>,
    pub input_budget_tokens: Option<u64>,
    /// `None` where the window of the model is unknown.
    pub suggest_compaction: Option<bool>,
    pub head_node_id: Option<u64>,
    pub request_fingerprint: String,
    pub estimate_source: String,
}

/// What a session tells its user.
#[derive(Debug)]
#[allow(inconsistent_fields)]
pub enum SessionEvent {
    NeedInput,
    TurnBegin { turn_id: u64, node_id: u64 },
    ReasoningDelta(String),
    ContentDelta(String),
    ToolCall { index: usize, name: String, arguments: String },
    ToolRetrying { index: usize, name: String, attempt: usize, max_retries: usize, delay_ms: u64 },
    ToolResult { index: usize, output: String, is_error: bool },
    ContextTrimmed {
        dropped_rounds: usize,
        truncated_messages: usize,
        before: u64,
        after: u64,
        suggest_compaction: bool,
        estimate_source: String,
    },
    RequestUsage { turn_id: u64, request_id: u64, attempt: u32, usage: Usage },
    TurnEnd {
        status: TurnStatus,
        node_id: Option<u64>,
        finish_reason: Option<String>,
        continuation_of: Option<u64>,
        usage: Option<Usage>,
        calibration_factor: Option<Real>,
    },
    BranchChanged { node_id: u64 },
    Error(ClientError),
}

/// What an event of a session says.
#[verifier::ext_equal]
#[allow(inconsistent_fields)]
pub enum SessionEventView {
    NeedInput,
    TurnBegin { turn_id: u64, node_id: u64 },
    ReasoningDelta(Seq<char>),
    ContentDelta(Seq<char>),
    ToolCall { index: usize, name: Seq<char>, arguments: Seq<char> },
    ToolRetrying {
        index: usize,
        name: Seq<char>,
        attempt: usize,
        max_retries: usize,
        delay_ms: u64,
    },
    ToolResult { index: usize, output: Seq<char>, is_error: bool },
    ContextTrimmed {
        dropped_rounds: usize,
        truncated_messages: usize,
        before: u64,
        after: u64,
        suggest_compaction: bool,
        estimate_source: Seq<char>,
    },
    RequestUsage { turn_id: u64, request_id: u64, attempt: u32, usage: Usage },
    TurnEnd {
        status: StatusView,
        node_id: Option<u64>,
        finish_reason: Option<Seq<char>>,
        continuation_of: Option<u64>,
        usage: Option<Usage>,
        calibration_factor: Option<Real>,
    },
    BranchChanged { node_id: u64 },
    Error(ErrorView),
}

impl View for SessionEvent {
    type V = SessionEventView;

    open spec fn view(&self) -> SessionEventView {
        match *self {
            SessionEvent::NeedInput => SessionEventView::NeedInput,
            SessionEvent::TurnBegin { turn_id, node_id } => SessionEventView::TurnBegin {
                turn_id,
                node_id,
            },
            SessionEvent::ReasoningDelta(s) => SessionEventView::ReasoningDelta(s@),
            SessionEvent::ContentDelta(s) => SessionEventView::ContentDelta(s@),
            SessionEvent::ToolCall { index, name, arguments } => SessionEventView::ToolCall {
                index,
                name: name@,
                arguments: arguments@,
            },
            SessionEvent::ToolRetrying { index, name, attempt, max_retries, delay_ms } =>
                SessionEventView::ToolRetrying { index, name: name@, attempt, max_retries, delay_ms },
            SessionEvent::ToolResult { index, output, is_error } => SessionEventView::ToolResult {
                index,
                output: output@,
                is_error,
            },
            SessionEvent::ContextTrimmed {
                dropped_rounds,
                truncated_messages,
                before,
                after,
                suggest_compaction,
                estimate_source,
            } => SessionEventView::ContextTrimmed {
                dropped_rounds,
                truncated_messages,
                before,
                after,
                suggest_compaction,
                estimate_source: estimate_source@,
            },
            SessionEvent::RequestUsage { turn_id, request_id, attempt, usage } =>
                SessionEventView::RequestUsage { turn_id, request_id, attempt, usage },
            SessionEvent::TurnEnd {
                status,
                node_id,
                finish_reason,
                continuation_of,
                usage,
                calibration_factor,
            } => SessionEventView::TurnEnd {
                status: status@,
                node_id,
                finish_reason: view_opt(finish_reason),
                continuation_of,
                usage,
                calibration_factor,
            },
            SessionEvent::BranchChanged { node_id } => SessionEventView::BranchChanged { node_id },
            SessionEvent::Error(e) => SessionEventView::Error(e@),
        }
    }
}

/// The counts of requests add up kind by kind, as long as the sums fit; what only one of them told
/// stands.
pub proof fn lemma_counts_add_up(a: Usage, b: Usage)
    ensures
        i64::MIN <= a.prompt_tokens + b.prompt_tokens <= i64::MAX ==> a.accumulated(
            b,
        ).prompt_tokens == a.prompt_tokens + b.prompt_tokens,
        i64::MIN <= a.completion_tokens + b.completion_tokens <= i64::MAX ==> a.accumulated(
            b,
        ).completion_tokens == a.completion_tokens + b.completion_tokens,
        i64::MIN <= a.total_tokens + b.total_tokens <= i64::MAX ==> a.accumulated(b).total_tokens
            == a.total_tokens + b.total_tokens,
        a.prompt_tokens + b.prompt_tokens > i64::MAX ==> a.accumulated(b).prompt_tokens == i64::MAX,
        a.completion_tokens + b.completion_tokens > i64::MAX ==> a.accumulated(
            b,
        ).completion_tokens == i64::MAX,
        a.total_tokens + b.total_tokens > i64::MAX ==> a.accumulated(b).total_tokens == i64::MAX,
        a.cached_prompt_tokens is None ==> a.accumulated(b).cached_prompt_tokens
            == b.cached_prompt_tokens,
        b.cached_prompt_tokens is None ==> a.accumulated(b).cached_prompt_tokens
            == a.cached_prompt_tokens,
        a.cached_prompt_tokens is Some && b.cached_prompt_tokens is Some && 0
            <= a.cached_prompt_tokens->0 + b.cached_prompt_tokens->0 <= i64::MAX ==> a.accumulated(
            b,
        ).cached_prompt_tokens is Some && a.accumulated(b).cached_prompt_tokens->0
            == a.cached_prompt_tokens->0 + b.cached_prompt_tokens->0,
        a.cache_creation_prompt_tokens is None ==> a.accumulated(b).cache_creation_prompt_tokens
            == b.cache_creation_prompt_tokens,
        b.cache_creation_prompt_tokens is None ==> a.accumulated(b).cache_creation_prompt_tokens
            == a.cache_creation_prompt_tokens,
        a.cache_creation_prompt_tokens is Some && b.cache_creation_prompt_tokens is Some && 0
            <= a.cache_creation_prompt_tokens->0 + b.cache_creation_prompt_tokens->0 <= i64::MAX
            ==> a.accumulated(b).cache_creation_prompt_tokens is Some && a.accumulated(
            b,
        ).cache_creation_prompt_tokens->0 == a.cache_creation_prompt_tokens->0
            + b.cache_creation_prompt_tokens->0,
{
}

/// Reports on one request leave the greatest count of each kind: none is lost, and none is added to
/// another.
pub proof fn lemma_reports_leave_the_greatest(a: Usage, b: Usage)
    ensures
        ({
            let m = a.merged(b);
            &&& m.prompt_tokens >= a.prompt_tokens && m.prompt_tokens >= b.prompt_tokens
            &&& m.prompt_tokens == a.prompt_tokens || m.prompt_tokens == b.prompt_tokens
            &&& m.completion_tokens >= a.completion_tokens && m.completion_tokens
                >= b.completion_tokens
            &&& m.completion_tokens == a.completion_tokens || m.completion_tokens
                == b.completion_tokens
            &&& m.total_tokens >= a.total_tokens && m.total_tokens >= b.total_tokens
            &&& m.total_tokens == a.total_tokens || m.total_tokens == b.total_tokens
            &&& a.cached_prompt_tokens is Some ==> m.cached_prompt_tokens is Some
                && m.cached_prompt_tokens->0 >= a.cached_prompt_tokens->0
            &&& b.cached_prompt_tokens is Some ==> m.cached_prompt_tokens is Some
                && m.cached_prompt_tokens->0 >= b.cached_prompt_tokens->0
            &&& m.cached_prompt_tokens == a.cached_prompt_tokens || m.cached_prompt_tokens
                == b.cached_prompt_tokens
            &&& a.cache_creation_prompt_tokens is Some ==> m.cache_creation_prompt_tokens is Some
                && m.cache_creation_prompt_tokens->0 >= a.cache_creation_prompt_tokens->0
            &&& b.cache_creation_prompt_tokens is Some ==> m.cache_creation_prompt_tokens is Some
                && m.cache_creation_prompt_tokens->0 >= b.cache_creation_prompt_tokens->0
            &&& m.cache_creation_prompt_tokens == a.cache_creation_prompt_tokens
                || m.cache_creation_prompt_tokens == b.cache_creation_prompt_tokens
            &&& m.request_count == 1
        }),
{
}

/// Whether an object holds a count under a key.
pub open spec fn tells(m: Map<Seq<char>, JsonView>, key: Seq<char>, n: int) -> bool {
    m.dom().contains(key) && m[key] == JsonView::Int(n) && 0 <= n <= i64::MAX
}

/// Whether an object holds a count under a key, or nothing and the count is zero.
pub open spec fn adds(m: Map<Seq<char>, JsonView>, key: Seq<char>, n: int) -> bool {
    tells(m, key, n) || (!m.dom().contains(key) && n == 0)
}

/// The counts of a service are read under whichever names it uses, the plain ones first. Input that
/// is told in parts is added up; a total that is not told is that of input and output.
pub proof fn lemma_counts_are_read(
    m: Map<Seq<char>, JsonView>,
    n: int,
    read: int,
    written: int,
)
    ensures
        ({
            let u = usage_of(JsonView::Object(m));
            &&& tells(m, "prompt_tokens"@, n) ==> u.prompt_tokens == n
            &&& !m.dom().contains("prompt_tokens"@) && tells(m, "prompt_cache_hit_tokens"@, read)
                && tells(m, "prompt_cache_miss_tokens"@, n) && n + read <= i64::MAX
                ==> u.prompt_tokens == n + read
            &&& !m.dom().contains("prompt_tokens"@) && !m.dom().contains(
                "prompt_cache_miss_tokens"@,
            ) && tells(m, "input_tokens"@, n) && adds(m, "cache_read_input_tokens"@, read)
                && adds(m, "cache_creation_input_tokens"@, written) && n + read + written
                <= i64::MAX ==> u.prompt_tokens == n + read + written
            &&& tells(m, "completion_tokens"@, n) ==> u.completion_tokens == n
            &&& !m.dom().contains("completion_tokens"@) && adds(m, "output_tokens"@, n)
                ==> u.completion_tokens == n
            &&& tells(m, "total_tokens"@, n) ==> u.total_tokens == n
            &&& !m.dom().contains("total_tokens"@) && u.prompt_tokens + u.completion_tokens
                <= i64::MAX ==> u.total_tokens == u.prompt_tokens + u.completion_tokens
            &&& u.request_count == 1
        }),
{
}

/// What was read from a cache and what was written to one is told under several names; where none
/// of them is there it is not known.
pub proof fn lemma_cache_counts_are_read(
    m: Map<Seq<char>, JsonView>,
    details: Map<Seq<char>, JsonView>,
    n: int,
)
    ensures
        ({
            let u = usage_of(JsonView::Object(m));
            let plain = m.dom().contains("cached_prompt_tokens"@);
            let hits = m.dom().contains("prompt_cache_hit_tokens"@);
            let reads = m.dom().contains("cache_read_input_tokens"@);
            let prompt = m.dom().contains("prompt_tokens_details"@);
            let input = m.dom().contains("input_tokens_details"@);
            let count = Some(n as i64);
            &&& tells(m, "cached_prompt_tokens"@, n) ==> u.cached_prompt_tokens == count
            &&& !plain && tells(m, "prompt_cache_hit_tokens"@, n) ==> u.cached_prompt_tokens
                == count
            &&& !plain && !hits && tells(m, "cache_read_input_tokens"@, n)
                ==> u.cached_prompt_tokens == count
            &&& !plain && !hits && !reads && prompt && m["prompt_tokens_details"@]
                == JsonView::Object(details) && tells(details, "cached_tokens"@, n)
                ==> u.cached_prompt_tokens == count
            &&& !plain && !hits && !reads && !prompt && input && m["input_tokens_details"@]
                == JsonView::Object(details) && tells(details, "cached_tokens"@, n)
                ==> u.cached_prompt_tokens == count
            &&& !plain && !hits && !reads && !prompt && !input ==> u.cached_prompt_tokens is None
            &&& tells(m, "cache_creation_prompt_tokens"@, n) ==> u.cache_creation_prompt_tokens
                == count
            &&& !m.dom().contains("cache_creation_prompt_tokens"@) && tells(
                m,
                "cache_creation_input_tokens"@,
                n,
            ) ==> u.cache_creation_prompt_tokens == count
            &&& !m.dom().contains("cache_creation_prompt_tokens"@) && !m.dom().contains(
                "cache_creation_input_tokens"@,
            ) ==> u.cache_creation_prompt_tokens is None
            &&& u.cache_usage_known_requests == if u.cached_prompt_tokens is Some {
                1u32
            } else {
                0u32
            }
            &&& u.cache_creation_usage_known_requests == if u.cache_creation_prompt_tokens is Some {
                1u32
            } else {
                0u32
            }
        }),
{
}

} // verus!
