use core_ai_client::json::Json;
use core_ai_client::llm::followup::{
    after_tool_failure, count_request, may_run, AfterAnswer, ToolFailure, ToolStep, NOT_ENABLED,
};
use core_ai_client::llm::provider::{LLMSession, SessionConfig};
use core_ai_client::llm::stream_turn::TurnOutput;
use core_ai_client::llm::tool::ToolRegistry;
use core_ai_client::llm::tree::ConversationNodeSeed;
use core_ai_client::llm::types::{
    Message, SessionEvent, ToolCall, ToolFunctionCall, TurnStatus, Usage,
};
use core_ai_client::orchestrator::context::AssembledTurn;
use std::sync::Arc;

const NOW: &str = "2026-07-31T00:00:00Z";

fn session_with(max_tool_rounds: usize, registry: ToolRegistry) -> LLMSession {
    let config = SessionConfig {
        base_url: "https://example.test".to_string(),
        api_key: "test-key".to_string(),
        event_buffer: 64,
        max_tool_rounds,
        context_window_tokens: None,
    };
    let mut session = LLMSession::new(config, Arc::new(registry));
    session.set_model("mock-model");
    session.set_stream(true);
    session
}

fn seed(node_id: u64, parent: Option<u64>, message: Message) -> ConversationNodeSeed {
    ConversationNodeSeed {
        node_id: Some(node_id),
        parent,
        turn_id: Some(1),
        timestamp: Some(NOW.to_string()),
        message,
    }
}

fn call(id: &str, index: usize, name: &str) -> ToolCall {
    ToolCall {
        id: Some(id.to_string()),
        call_type: Some("function".to_string()),
        function: ToolFunctionCall {
            name: name.to_string(),
            arguments: "{}".to_string(),
        },
        index,
    }
}

fn answer(content: &str, tool_calls: Option<Vec<ToolCall>>) -> TurnOutput {
    TurnOutput {
        content: content.to_string(),
        reasoning: String::new(),
        tool_calls,
        finish_reason: Some("stop".to_string()),
        status: TurnStatus::Completed,
        usage: None,
    }
}

/// Runs a tool that always fails; gives the attempts, the events, and what is told in the end.
fn ended(next: AfterAnswer) -> Option<String> {
    match next {
        AfterAnswer::End { finish_reason } => finish_reason,
        other => panic!("the turn goes on: {other:?}"),
    }
}

fn run(name: &str, failure: &ToolFailure) -> (usize, Vec<SessionEvent>, String, bool) {
    let mut calls = 0;
    let mut events = Vec::new();
    let mut made = 0;
    loop {
        calls += 1;
        match after_tool_failure(0, name, failure, made) {
            ToolStep::Retry { event, .. } => {
                events.push(event);
                made += 1;
            }
            ToolStep::Record { output, withdrawn } => return (calls, events, output, withdrawn),
        }
    }
}

#[test]
fn transient_tool_failure_retries_exactly_twice() {
    let failure = ToolFailure::Transient {
        retry_after_ms: Some(0),
    };
    let (calls, events, output, withdrawn) = run("transient_tool", &failure);
    assert_eq!(calls, 3);
    assert_eq!(
        events
            .iter()
            .filter(|event| matches!(event, SessionEvent::ToolRetrying { .. }))
            .count(),
        2
    );
    assert!(!events
        .iter()
        .any(|event| matches!(event, SessionEvent::Error(_))));
    assert!(output.contains("超时"));
    assert!(!withdrawn);
}

#[test]
fn retries_are_numbered_and_wait_longer() {
    let failure = ToolFailure::Transient {
        retry_after_ms: None,
    };
    let (_, events, _, _) = run("transient_tool", &failure);
    let told: Vec<(usize, usize, u64)> = events
        .iter()
        .map(|event| match event {
            SessionEvent::ToolRetrying {
                attempt,
                max_retries,
                delay_ms,
                ..
            } => (*attempt, *max_retries, *delay_ms),
            _ => panic!("another attempt"),
        })
        .collect();
    assert_eq!(told, vec![(1, 2, 400), (2, 2, 800)]);
}

#[test]
fn denied_tool_failure_never_retries_and_forbids_model_retry() {
    let failure = ToolFailure::Denied {
        reason: "用户取消确认".to_string(),
    };
    let (calls, events, output, withdrawn) = run("denied_tool", &failure);
    assert_eq!(calls, 1);
    assert!(events.is_empty());
    assert!(output.contains("不要重试"));
    assert!(output.contains("用户取消确认"));
    assert!(!withdrawn);
}

#[test]
fn fatal_tool_is_removed_from_followup_request() {
    let mut registry = ToolRegistry::new();
    registry.register("fatal_tool", "失败分类测试工具", None);
    registry.register("other_tool", "别的工具", None);
    let session = session_with(4, registry);
    let (calls, _, _, withdrawn) = run("fatal_tool", &ToolFailure::Fatal);
    assert_eq!(calls, 1);
    assert!(withdrawn);
    let request = session.snapshot();
    assert_eq!(request.tools.as_ref().unwrap().len(), 2);
    let request = session.followup_request(request, &vec!["fatal_tool".to_string()], 1);
    let names: Vec<&str> = request
        .tools
        .as_ref()
        .unwrap()
        .iter()
        .map(|tool| {
            tool.get("function")
                .and_then(|function| function.get("name"))
                .and_then(Json::as_str)
                .unwrap()
        })
        .collect();
    assert_eq!(names, vec!["other_tool"]);
    assert_eq!(request.tool_choice.as_deref(), Some("auto"));
}

#[test]
fn tool_round_limit_finishes_with_text_instead_of_error() {
    let mut session = session_with(0, ToolRegistry::new());
    session
        .capture_user_turn("执行复杂任务", &AssembledTurn::default(), NOW)
        .unwrap();
    let output = answer("", Some(vec![call("call_1", 0, "unused_tool")]));
    session.record_answer(&output, NOW).unwrap();
    assert!(session.tool_rounds_exhausted(0));
    let request = session.followup_request(session.snapshot(), &vec![], 0);
    assert_eq!(request.tool_choice.as_deref(), Some("none"));
    assert!(request.messages.iter().any(|message| {
        message.role == "system"
            && message
                .content
                .as_deref()
                .is_some_and(|content| content.contains("工具调用上限"))
    }));

    let patient = session_with(4, ToolRegistry::new());
    assert!(!patient.tool_rounds_exhausted(3));
    assert!(patient.tool_rounds_exhausted(4));

    let asked = Some("tool_calls".to_string());
    let calls = vec![call("call_1", 0, "unused_tool")];
    assert!(matches!(
        session.after_answer(&asked, &calls, false, false, 0),
        AfterAnswer::LastRequest
    ));
    let turn = AssembledTurn::default();
    let last = session.turn_request(None, &turn, &vec![], 0, true).unwrap();
    assert_eq!(last.tool_choice.as_deref(), Some("none"));
    let stop = Some("stop".to_string());
    assert_eq!(
        ended(session.after_answer(&stop, &vec![], false, true, 0)).as_deref(),
        Some("tool_rounds_exhausted")
    );
}

#[test]
fn reasoning_only_continuation_uses_ephemeral_context() {
    let mut session = session_with(4, ToolRegistry::new());
    session.preload_history(
        &vec![
            seed(1, None, Message::user("写一篇长文")),
            seed(
                2,
                Some(1),
                Message::assistant(None, Some("已有思考上下文"), None),
            ),
        ],
        Some(2),
    );
    let request = session.continuation_request(2).unwrap();
    assert!(request.messages.iter().all(|message| {
        message.role != "assistant" || message.content.is_some() || message.tool_calls.is_some()
    }));
    let prompt = request.messages.last().unwrap().content.as_deref().unwrap();
    assert!(prompt.contains("已有思考上下文"));
    assert_eq!(session.handle.get_all_nodes().len(), 2);

    let node_id = session
        .record_answer(&answer("续写正文", None), NOW)
        .unwrap();
    assert_eq!(session.handle.get_node(node_id).unwrap().parent, Some(2));
}

#[test]
fn content_continuation_does_not_duplicate_reasoning_in_prompt() {
    let mut session = session_with(4, ToolRegistry::new());
    session.preload_history(
        &vec![
            seed(1, None, Message::user("写一篇长文")),
            seed(
                2,
                Some(1),
                Message::assistant(Some("已有正文"), Some("已有思考上下文"), None),
            ),
        ],
        Some(2),
    );
    let request = session.continuation_request(2).unwrap();
    assert!(request.messages.iter().any(|message| {
        message.role == "assistant"
            && message.reasoning_content.as_deref() == Some("已有思考上下文")
    }));
    assert!(!request
        .messages
        .last()
        .unwrap()
        .content
        .as_deref()
        .unwrap()
        .contains("已有思考上下文"));
}

#[test]
fn stale_queued_continuation_does_not_stop_session() {
    let mut session = session_with(4, ToolRegistry::new());
    session.preload_history(
        &vec![
            seed(1, None, Message::user("写一篇长文")),
            seed(2, Some(1), Message::assistant(Some("已有正文"), None, None)),
        ],
        Some(2),
    );
    assert!(session.continuation_request(2).is_ok());
    let first = session.record_answer(&answer("第一段续写", None), NOW);
    assert!(first.is_some());
    assert!(session.continuation_request(2).is_err());
    assert!(session
        .capture_user_turn("继续对话", &AssembledTurn::default(), NOW)
        .is_some());
    assert!(session
        .record_answer(&answer("会话仍可用", None), NOW)
        .is_some());
}

#[test]
fn tool_execution_cancel_stops_followup_turn() {
    let mut session = session_with(4, ToolRegistry::new());
    session
        .capture_user_turn("调用工具", &AssembledTurn::default(), NOW)
        .unwrap();
    let calls = vec![call("call_1", 0, "slow_tool"), call("call_2", 1, "slow_tool")];
    session
        .record_answer(&answer("", Some(calls.clone())), NOW)
        .unwrap();
    session.handle.cancel();
    session.cancel_calls(&calls, NOW);

    let snapshot = session.handle.get_conversation();
    let call_count: usize = snapshot
        .messages
        .iter()
        .filter(|m| m.role == "assistant")
        .filter_map(|m| m.tool_calls.as_ref())
        .map(Vec::len)
        .sum();
    let results: Vec<Option<&str>> = snapshot
        .messages
        .iter()
        .filter(|m| m.role == "tool")
        .map(|m| m.tool_call_id.as_deref())
        .collect();
    assert!(call_count > 0);
    assert_eq!(call_count, results.len());
    assert_eq!(results, vec![Some("call_1"), Some("call_2")]);

    let (_, next) = session.begin_request(&snapshot, session.handle.cancelled_since(0));
    assert!(matches!(
        next,
        core_ai_client::llm::provider::Sending::Done(Ok(output))
            if matches!(output.status, TurnStatus::Cancelled)
    ));
}

#[test]
fn what_follows_an_answer() {
    let session = session_with(2, ToolRegistry::new());
    let asked = Some("tool_calls".to_string());
    let stop = Some("stop".to_string());
    let calls = vec![call("call_1", 0, "tool")];
    for rounds in 0..2 {
        assert!(matches!(
            session.after_answer(&asked, &calls, false, false, rounds),
            AfterAnswer::RunTools
        ));
    }
    assert!(matches!(
        session.after_answer(&asked, &calls, false, false, 2),
        AfterAnswer::LastRequest
    ));
    assert_eq!(
        ended(session.after_answer(&stop, &calls, false, false, 0)).as_deref(),
        Some("stop")
    );
    assert_eq!(
        ended(session.after_answer(&asked, &vec![], false, false, 0)).as_deref(),
        Some("tool_calls")
    );
    assert_eq!(ended(session.after_answer(&None, &calls, false, false, 0)), None);
    assert_eq!(
        ended(session.after_answer(&asked, &calls, true, false, 0)).as_deref(),
        Some("tool_calls")
    );
    assert_eq!(
        ended(session.after_answer(&asked, &calls, false, true, 2)).as_deref(),
        Some("tool_rounds_exhausted")
    );
}

#[test]
fn counts_of_a_turn_add_up_over_its_requests() {
    let of = |prompt: i64, cached: Option<i64>| Usage {
        prompt_tokens: prompt,
        completion_tokens: 2,
        total_tokens: prompt + 2,
        cached_prompt_tokens: cached,
        cache_creation_prompt_tokens: None,
        request_count: 1,
        cache_usage_known_requests: if cached.is_some() { 1 } else { 0 },
        cache_creation_usage_known_requests: 0,
    };
    let first = of(10, Some(4));
    assert_eq!(count_request(None, None), None);
    assert_eq!(count_request(None, Some(first)), Some(first));
    assert_eq!(count_request(Some(first), None), Some(first));
    let both = count_request(Some(first), Some(of(22, Some(15)))).unwrap();
    assert_eq!(both.prompt_tokens, 32);
    assert_eq!(both.total_tokens, 36);
    assert_eq!(both.cached_prompt_tokens, Some(19));
    assert_eq!(both.request_count, 2);
    assert_eq!(both.cache_usage_known_requests, 2);
}

#[test]
fn only_enabled_tools_may_run() {
    let silent = AssembledTurn::default();
    assert!(may_run(&silent, "any"));
    let forbidding = AssembledTurn {
        tool_schemas: Some(vec![]),
        ..AssembledTurn::default()
    };
    assert!(!may_run(&forbidding, "any"));
    let listing = AssembledTurn {
        tool_schemas: Some(vec![]),
        enabled_tools: vec!["read".to_string(), "write".to_string()],
        ..AssembledTurn::default()
    };
    assert!(may_run(&listing, "write"));
    assert!(!may_run(&listing, "writ"));
    assert!(!may_run(&listing, "writes"));
}

#[test]
fn requests_of_a_turn() {
    let mut session = session_with(4, ToolRegistry::new());
    session.preload_history(
        &vec![
            seed(1, None, Message::user("问题")),
            seed(2, Some(1), Message::assistant(Some("已有正文"), None, None)),
        ],
        Some(2),
    );
    let turn = AssembledTurn {
        instruction_messages: vec!["策略".to_string()],
        ..AssembledTurn::default()
    };
    let plain = session.turn_request(None, &turn, &vec![], 0, false).unwrap();
    let roles: Vec<&str> = plain.messages.iter().map(|m| m.role.as_str()).collect();
    assert_eq!(roles, vec!["system", "user", "assistant"]);
    assert_eq!(plain.messages[0].content.as_deref(), Some("策略"));

    let going_on = session.turn_request(Some(2), &turn, &vec![], 0, false).unwrap();
    assert_eq!(going_on.messages.len(), 4);
    assert_eq!(going_on.messages[3].role, "user");
    let behind = session.turn_request(Some(2), &turn, &vec![], 1, false).unwrap();
    assert_eq!(behind.messages.len(), 3);
    let refused = session.turn_request(Some(1), &turn, &vec![], 0, false).unwrap_err();
    assert_eq!(refused.message, session.handle.continue_generation(1).unwrap_err());
}

#[test]
fn tool_that_is_not_enabled_is_refused_and_stays_offered() {
    let failure = ToolFailure::Denied {
        reason: NOT_ENABLED.to_string(),
    };
    match after_tool_failure(0, "write", &failure, 0) {
        ToolStep::Record { output, withdrawn } => {
            assert_eq!(output, "工具执行被拒绝: 本轮未启用该工具。不要重试该操作");
            assert!(!withdrawn);
        }
        other => panic!("tried again: {other:?}"),
    }
}
