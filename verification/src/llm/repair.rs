//! What is done about a request that the service refused, and about a tool that failed for now.

use crate::error::{ClientError, ErrorCode, ErrorView};
use crate::llm::provider::LLMSession;
use crate::llm::sanitize::{lemma_tidied, lemma_tidying_keeps_tidy, tidied_from, without_reasoning};
use crate::llm::types::{ChatRequest, Message, MessageView, RequestView};
use crate::model::{duplicate_all, views};
use crate::text::{contains_text, has_text, lemma_lowered_twice, lower_text, lowered};
use vstd::arithmetic::power2::{lemma2_to64, lemma_pow2_strictly_increases, pow2};
use vstd::prelude::*;

verus! {

/// The rule for a request that is too long.
pub const CONTEXT_LENGTH_EXCEEDED: &'static str = "context_length_exceeded";

/// The rule for a service that does not accept what the model thought.
pub const UNSUPPORTED_REASONING_CONTENT: &'static str = "unsupported_reasoning_content";

/// The rule for an answer that says nothing.
pub const INVALID_ASSISTANT_MESSAGE: &'static str = "invalid_assistant_message";

/// The rule for an empty list of tools.
pub const EMPTY_TOOLS: &'static str = "empty_tools";

/// The longest pause before a tool is tried again.
pub const MAX_TOOL_RETRY_DELAY_MS: u64 = 5000;

/// The pause before a tool is first tried again, where the tool does not say.
pub const TOOL_RETRY_BASE_DELAY_MS: u64 = 400;

/// Whether a message of the service says that the request is too long.
pub open spec fn says_too_long(message: Seq<char>) -> bool {
    let m = lowered(message);
    ||| contains_text(m, "context_length_exceeded"@)
    ||| contains_text(m, "maximum context length"@)
    ||| contains_text(m, "prompt is too long"@)
    ||| contains_text(m, "input length and max_tokens exceed context limit"@)
    ||| contains_text(m, "exceeds the context window"@)
    ||| contains_text(m, "too many tokens"@)
    ||| contains_text(m, "maximum number of tokens"@)
}

impl LLMSession {
    /// Whether a message of the service says that the request is too long.
    pub fn is_context_overflow_message(message: &str) -> (r: bool)
        ensures
            r == says_too_long(message@),
    {
        let m: String = lower_text(message);
        let m: &str = m.as_str();
        has_text(m, "context_length_exceeded") || has_text(m, "maximum context length") || has_text(
            m,
            "prompt is too long",
        ) || has_text(m, "input length and max_tokens exceed context limit") || has_text(
            m,
            "exceeds the context window",
        ) || has_text(m, "too many tokens") || has_text(m, "maximum number of tokens")
    }
}

/// What the service said about a request that it refused.
pub open spec fn refusal(e: ErrorView) -> Option<Seq<char>> {
    if e.code == ErrorCode::HttpBadRequest {
        e.text("provider_message"@)
    } else {
        None
    }
}

/// Whether an error says that the request is too long.
pub open spec fn too_long(e: ErrorView) -> bool {
    match refusal(e) {
        Some(message) => says_too_long(message),
        None => false,
    }
}

impl LLMSession {
    /// Whether an error says that the request is too long.
    pub fn is_context_overflow_error(error: &ClientError) -> (r: bool)
        ensures
            r == too_long(error@),
    {
        if error.code != ErrorCode::HttpBadRequest {
            return false;
        }
        match error.text("provider_message") {
            Some(message) => LLMSession::is_context_overflow_message(message),
            None => false,
        }
    }
}

/// Whether a message in small letters says that the service does not accept what the model thought.
pub open spec fn refuses_reasoning(m: Seq<char>) -> bool {
    contains_text(m, "reasoning_content"@) && {
        ||| contains_text(m, "not allowed"@)
        ||| contains_text(m, "unsupported"@)
        ||| contains_text(m, "unknown"@)
        ||| contains_text(m, "extra inputs"@)
    }
}

/// Whether a message in small letters says that an answer says nothing.
pub open spec fn refuses_answer(m: Seq<char>) -> bool {
    ||| contains_text(m, "invalid assistant message"@)
    ||| contains_text(m, "content or tool_calls must be set"@)
}

/// Whether a message in small letters says that the list of tools is empty.
pub open spec fn refuses_tools(m: Seq<char>) -> bool {
    contains_text(m, "tools"@) && {
        ||| contains_text(m, "empty"@)
        ||| contains_text(m, "at least one"@)
        ||| contains_text(m, "must contain"@)
    }
}

/// Whether a request tells what the model thought.
pub open spec fn tells_reasoning(s: Seq<MessageView>) -> bool {
    exists|i: int| #![trigger s[i]] 0 <= i < s.len() && s[i].reasoning_content is Some
}

/// Whether a request has a list of tools without tools.
pub open spec fn lists_no_tools(r: RequestView) -> bool {
    match r.tools {
        Some(t) => t.len() == 0,
        None => false,
    }
}

/// A request that was put right, and the rule by which it was.
#[verifier::ext_equal]
pub struct Repair {
    pub request: RequestView,
    pub rule: Seq<char>,
}

/// What a request that the service refused becomes, and by which rule; `None` where no rule
/// applies, so that the request must not be sent again.
pub open spec fn repaired(r: RequestView, e: ErrorView) -> Option<Repair> {
    match refusal(e) {
        None => None,
        Some(message) => {
            let m = lowered(message);
            if says_too_long(message) {
                Some(Repair { request: r, rule: CONTEXT_LENGTH_EXCEEDED@ })
            } else if refuses_reasoning(m) && tells_reasoning(r.messages) {
                Some(
                    Repair {
                        request: r.with_messages(without_reasoning(r.messages)),
                        rule: UNSUPPORTED_REASONING_CONTENT@,
                    },
                )
            } else if refuses_answer(m) && tidied_from(r.messages, 0).len() != r.messages.len() {
                Some(
                    Repair {
                        request: r.with_messages(tidied_from(r.messages, 0)),
                        rule: INVALID_ASSISTANT_MESSAGE@,
                    },
                )
            } else if refuses_tools(m) && lists_no_tools(r) {
                Some(
                    Repair {
                        request: RequestView { tools: None, tool_choice: None, ..r },
                        rule: EMPTY_TOOLS@,
                    },
                )
            } else {
                None
            }
        },
    }
}

impl LLMSession {
    /// Repairs a request that the service refused, where it said what is wrong and that can be put
    /// right without a doubt.
    pub fn repair_after_bad_request(req: &ChatRequest, error: &ClientError) -> (r: Option<
        (ChatRequest, &'static str),
    >)
        ensures
            match r {
                Some((request, rule)) => repaired(req@, error@) == Some(
                    (Repair { request: request@, rule: rule@ }),
                ),
                None => repaired(req@, error@) is None,
            },
    {
        if error.code != ErrorCode::HttpBadRequest {
            return None;
        }
        let message: &str = match error.text("provider_message") {
            Some(message) => message,
            None => {
                return None;
            },
        };
        let small: String = lower_text(message);
        let m: &str = small.as_str();
        proof {
            lemma_lowered_twice(message@);
        }
        let mut request: ChatRequest = req.clone();
        if LLMSession::is_context_overflow_message(m) {
            return Some((request, CONTEXT_LENGTH_EXCEEDED));
        }
        if has_text(m, "reasoning_content") && (has_text(m, "not allowed") || has_text(m, "unsupported")
            || has_text(m, "unknown") || has_text(m, "extra inputs")) {
            let mut messages: Vec<Message> = duplicate_all(
                &request.messages,
            );
            if LLMSession::strip_reasoning_content(&mut messages) {
                request.messages = messages;
                assert(request@ =~= req@.with_messages(without_reasoning(req@.messages)));
                return Some((request, UNSUPPORTED_REASONING_CONTENT));
            }
        }
        if has_text(m, "invalid assistant message") || has_text(m, "content or tool_calls must be set") {
            let messages: Vec<Message> = LLMSession::sanitize_messages(
                duplicate_all(&request.messages),
            );
            assert(views(messages@).len() == messages@.len());
            if messages.len() != request.messages.len() {
                request.messages = messages;
                assert(request@ =~= req@.with_messages(tidied_from(req@.messages, 0)));
                return Some((request, INVALID_ASSISTANT_MESSAGE));
            }
        }
        let no_tools: bool = match &request.tools {
            Some(t) => t.len() == 0,
            None => false,
        };
        if has_text(m, "tools") && (has_text(m, "empty") || has_text(m, "at least one") || has_text(
            m,
            "must contain",
        )) && no_tools {
            request.tools = None;
            request.tool_choice = None;
            return Some((request, EMPTY_TOOLS));
        }
        None
    }
}

/// A request is found too long exactly where its error says so, and then it is the rule for long
/// requests that applies, with the request as it is.
pub proof fn lemma_too_long_rule(r: RequestView, e: ErrorView)
    ensures
        too_long(e) ==> repaired(r, e) == Some(
            (Repair { request: r, rule: CONTEXT_LENGTH_EXCEEDED@ }),
        ),
        repaired(r, e) is Some && repaired(r, e)->0.rule == CONTEXT_LENGTH_EXCEEDED@ ==> too_long(e),
{
    lemma_rules_differ();
}

/// The rules have different names.
pub proof fn lemma_rules_differ()
    ensures
        CONTEXT_LENGTH_EXCEEDED@ != UNSUPPORTED_REASONING_CONTENT@,
        CONTEXT_LENGTH_EXCEEDED@ != INVALID_ASSISTANT_MESSAGE@,
        CONTEXT_LENGTH_EXCEEDED@ != EMPTY_TOOLS@,
        UNSUPPORTED_REASONING_CONTENT@ != INVALID_ASSISTANT_MESSAGE@,
        UNSUPPORTED_REASONING_CONTENT@ != EMPTY_TOOLS@,
        INVALID_ASSISTANT_MESSAGE@ != EMPTY_TOOLS@,
{
    reveal_strlit("context_length_exceeded");
    reveal_strlit("unsupported_reasoning_content");
    reveal_strlit("invalid_assistant_message");
    reveal_strlit("empty_tools");
    assert(CONTEXT_LENGTH_EXCEEDED@[0] == 'c' && UNSUPPORTED_REASONING_CONTENT@[0] == 'u');
    assert(INVALID_ASSISTANT_MESSAGE@[0] == 'i' && EMPTY_TOOLS@[0] == 'e');
}

/// A repair by any rule but that for long requests changes the request, so that what is sent again
/// is never what was refused; and nothing but a message of the service leads to a repair.
pub proof fn lemma_repair_changes(r: RequestView, e: ErrorView)
    ensures
        refusal(e) is None ==> repaired(r, e) is None,
        repaired(r, e) is Some && !too_long(e) ==> repaired(r, e)->0.request != r,
{
    match repaired(r, e) {
        Some(Repair { request: q, rule: _ }) => {
            if !too_long(e) && q == r {
                let m = lowered(refusal(e)->0);
                if refuses_reasoning(m) && tells_reasoning(r.messages) {
                    let i = choose|i: int| #![trigger r.messages[i]]
                        0 <= i < r.messages.len() && r.messages[i].reasoning_content is Some;
                    assert(q.messages[i].reasoning_content is None);
                }
            }
        },
        None => {},
    }
}

/// A second repair by the same rule finds nothing: stripping, tidying and dropping the empty list
/// are done once.
pub proof fn lemma_repair_is_final(r: RequestView, e: ErrorView)
    requires
        repaired(r, e) is Some,
        !too_long(e),
    ensures
        repaired(r, e)->0.rule == UNSUPPORTED_REASONING_CONTENT@ ==> !tells_reasoning(
            repaired(r, e)->0.request.messages,
        ),
        repaired(r, e)->0.rule == INVALID_ASSISTANT_MESSAGE@ ==> tidied_from(
            repaired(r, e)->0.request.messages,
            0,
        ) == repaired(r, e)->0.request.messages,
        repaired(r, e)->0.rule == EMPTY_TOOLS@ ==> !lists_no_tools(repaired(r, e)->0.request),
{
    lemma_rules_differ();
    lemma_tidied(r.messages, 0);
    let t = tidied_from(r.messages, 0);
    lemma_tidying_keeps_tidy(t, 0);
    assert(t.skip(0) =~= t);
}

/// The pause before a tool is tried again: what the tool asks for, else a pause that doubles from
/// one attempt to the next; never more than the longest.
pub open spec fn retry_delay(asked: Option<u64>, attempt: nat) -> nat {
    let wanted = match asked {
        Some(ms) => ms as nat,
        None => TOOL_RETRY_BASE_DELAY_MS as nat * pow2(attempt),
    };
    if wanted > MAX_TOOL_RETRY_DELAY_MS {
        MAX_TOOL_RETRY_DELAY_MS as nat
    } else {
        wanted
    }
}

/// The pause before a tool is tried again, in milliseconds.
pub fn tool_retry_delay_ms(retry_after_ms: Option<u64>, attempt: u32) -> (r: u64)
    ensures
        r == retry_delay(retry_after_ms, attempt as nat),
{
    proof {
        lemma2_to64();
        if attempt > 4 {
            lemma_pow2_strictly_increases(4, attempt as nat);
        }
    }
    let wanted: u64 = match retry_after_ms {
        Some(ms) => ms,
        None => match attempt {
            0 => TOOL_RETRY_BASE_DELAY_MS,
            1 => TOOL_RETRY_BASE_DELAY_MS * 2,
            2 => TOOL_RETRY_BASE_DELAY_MS * 4,
            3 => TOOL_RETRY_BASE_DELAY_MS * 8,
            _ => MAX_TOOL_RETRY_DELAY_MS,
        },
    };
    if wanted > MAX_TOOL_RETRY_DELAY_MS {
        MAX_TOOL_RETRY_DELAY_MS
    } else {
        wanted
    }
}

/// A request is found too long by any of the words that services use for it, whatever the case of
/// the letters, and by nothing else.
pub proof fn lemma_words_for_too_long(message: Seq<char>)
    ensures
        says_too_long(message) <==> (contains_text(lowered(message), "context_length_exceeded"@)
            || contains_text(lowered(message), "maximum context length"@) || contains_text(
            lowered(message),
            "prompt is too long"@,
        ) || contains_text(
            lowered(message),
            "input length and max_tokens exceed context limit"@,
        ) || contains_text(lowered(message), "exceeds the context window"@) || contains_text(
            lowered(message),
            "too many tokens"@,
        ) || contains_text(lowered(message), "maximum number of tokens"@)),
        says_too_long(message) == says_too_long(lowered(message)),
{
    lemma_lowered_twice(message);
}

/// What each rule does to a request that was refused, and when it applies: thoughts are taken out
/// where the service does not accept them, silent answers where it does not accept those, and an
/// empty list of tools. Nothing else of the request changes.
pub proof fn lemma_what_repairs_do(r: RequestView, e: ErrorView)
    requires
        refusal(e) is Some,
    ensures
        ({
            let m = lowered(refusal(e)->0);
            let thoughts = contains_text(m, "reasoning_content"@) && (contains_text(
                m,
                "not allowed"@,
            ) || contains_text(m, "unsupported"@) || contains_text(m, "unknown"@) || contains_text(
                m,
                "extra inputs"@,
            )) && exists|i: int| #![trigger r.messages[i]]
                0 <= i < r.messages.len() && r.messages[i].reasoning_content is Some;
            let silent = (contains_text(m, "invalid assistant message"@) || contains_text(
                m,
                "content or tool_calls must be set"@,
            )) && tidied_from(r.messages, 0).len() != r.messages.len();
            let tools = contains_text(m, "tools"@) && (contains_text(m, "empty"@) || contains_text(
                m,
                "at least one"@,
            ) || contains_text(m, "must contain"@)) && r.tools is Some && r.tools->0.len() == 0;
            &&& repaired(r, e) is Some <==> too_long(e) || thoughts || silent || tools
            &&& too_long(e) ==> repaired(r, e)->0.request == r
            &&& !too_long(e) && thoughts ==> repaired(r, e)->0.request == (RequestView {
                messages: without_reasoning(r.messages),
                ..r
            })
            &&& !too_long(e) && !thoughts && silent ==> repaired(r, e)->0.request == (RequestView {
                messages: tidied_from(r.messages, 0),
                ..r
            })
            &&& !too_long(e) && !thoughts && !silent && tools ==> repaired(r, e)->0.request == (
            RequestView { tools: None, tool_choice: None, ..r })
        }),
{
}

/// Without a wish of the tool, the pause is four tenths of a second at first and doubles from one
/// attempt to the next; a wish is followed. No pause is longer than five seconds.
pub proof fn lemma_pauses(asked: u64, attempt: nat)
    ensures
        retry_delay(None, 0) == 400,
        retry_delay(None, attempt + 1) == if 2 * retry_delay(None, attempt) <= 5000 {
            2 * retry_delay(None, attempt)
        } else {
            5000
        },
        retry_delay(Some(asked), attempt) == if asked <= 5000 {
            asked as nat
        } else {
            5000
        },
{
    lemma2_to64();
    vstd::arithmetic::power2::lemma_pow2_unfold(attempt + 1);
    vstd::arithmetic::power2::lemma_pow2_pos(attempt);
}

} // verus!
