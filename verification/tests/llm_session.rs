use core_ai_client::error::{bad_request_error, refusal_error, ClientError, ErrorCode};
use core_ai_client::json::Json;
use core_ai_client::llm::context_snapshot::PreparedContextSnapshot;
use core_ai_client::llm::provider::{LLMSession, PendingRequest, Sending, SessionConfig};
use core_ai_client::llm::repair::tool_retry_delay_ms;
use core_ai_client::llm::stream_turn::{StreamStep, StreamTurn, TurnOutput};
use core_ai_client::llm::token_estimate::RequestBaseline;
use core_ai_client::llm::tool::ToolRegistry;
use core_ai_client::llm::tree::ConversationNodeSeed;
use core_ai_client::llm::turn::assemble_turn;
use core_ai_client::llm::types::{
    ChatRequest, ChatResponse, ChatResponseStream, Choice, ChoiceStream, Delta, Message,
    SessionEvent, ToolCall, ToolFunctionCall, TurnStatus, Usage,
};
use core_ai_client::orchestrator::context::{AssembledTurn, TaskContext};
use core_ai_client::orchestrator::orchestrator::{DefaultOrchestrator, Orchestrate};
use std::sync::Arc;

const NOW: &str = "2026-05-14T00:00:00Z";

fn config(context_window_tokens: Option<u64>) -> SessionConfig {
    SessionConfig {
        base_url: "https://example.test".to_string(),
        api_key: "test-key".to_string(),
        event_buffer: 64,
        max_tool_rounds: 4,
        context_window_tokens,
    }
}

fn new_test_session() -> LLMSession {
    LLMSession::new(config(None), Arc::new(ToolRegistry::new()))
}

fn new_streaming_session() -> LLMSession {
    let mut session = new_test_session();
    session.set_model("mock-model");
    session.set_stream(true);
    session
}

fn assemble(context: &TaskContext) -> AssembledTurn {
    DefaultOrchestrator::new(Arc::new(ToolRegistry::new()))
        .assemble(context)
        .unwrap()
}

fn entry(text: &str) -> TaskContext {
    let mut context = TaskContext::default();
    context.attributes.insert("entry", text.to_string());
    context
}

fn stored_message(
    node_id: Option<u64>,
    parent: Option<u64>,
    role: &str,
    content: &str,
) -> ConversationNodeSeed {
    ConversationNodeSeed {
        node_id,
        parent,
        turn_id: Some(0),
        timestamp: Some(NOW.to_string()),
        message: Message {
            role: role.to_string(),
            content: Some(content.to_string()),
            reasoning_content: None,
            tool_call_id: None,
            tool_calls: None,
        },
    }
}

fn overflow_request() -> ChatRequest {
    let mut messages = Vec::new();
    for round in 1..=4 {
        messages.push(Message::user(&format!(
            "第{round}轮问题-{}",
            "问".repeat(100)
        )));
        messages.push(Message::assistant(
            Some(&format!("第{round}轮回答-{}", "答".repeat(100))),
            None,
            None,
        ));
    }
    ChatRequest {
        messages,
        model: "mock-model".to_string(),
        stream: Some(true),
        ..ChatRequest::default()
    }
}

fn delta() -> Delta {
    Delta {
        role: None,
        content: None,
        reasoning_content: None,
        content_snapshot: None,
        reasoning_content_snapshot: None,
        tool_call_id: None,
        tool_calls: None,
    }
}

fn chunk(choices: Vec<ChoiceStream>, usage: Option<Usage>) -> ChatResponseStream {
    ChatResponseStream {
        id: "chunk-1".to_string(),
        object: "chat.completion.chunk".to_string(),
        choices,
        created: 0,
        model: "mock-model".to_string(),
        system_fingerprint: None,
        usage,
    }
}

fn stream_content_chunk(content: &str, finish_reason: Option<&str>) -> ChatResponseStream {
    chunk(
        vec![ChoiceStream {
            index: 0,
            delta: Delta {
                content: Some(content.to_string()),
                ..delta()
            },
            finish_reason: finish_reason.map(str::to_string),
        }],
        None,
    )
}

fn stream_tool_call_chunk(name: &str) -> ChatResponseStream {
    chunk(
        vec![ChoiceStream {
            index: 0,
            delta: Delta {
                tool_calls: Some(vec![tc(Some("call_1"), 0, name)]),
                ..delta()
            },
            finish_reason: None,
        }],
        None,
    )
}

fn stream_tool_finish_chunk() -> ChatResponseStream {
    chunk(
        vec![ChoiceStream {
            index: 0,
            delta: delta(),
            finish_reason: Some("tool_calls".to_string()),
        }],
        None,
    )
}

fn stream_usage_chunk(usage: &str) -> ChatResponseStream {
    let usage = Usage::deserialize(&Json::parse(usage).unwrap()).unwrap();
    chunk(vec![], Some(usage))
}

enum Line {
    Chunk(ChatResponseStream),
    Done,
}

/// Feeds the lines of a stream to a turn until it stops or the lines end.
fn play(turn: &mut StreamTurn, lines: Vec<Line>) -> (Vec<SessionEvent>, usize) {
    let mut events = Vec::new();
    let mut read = 0;
    for line in lines {
        read += 1;
        let (mut sent, step) = match line {
            Line::Chunk(chunk) => turn.on_line("data: {}", Ok(chunk)),
            Line::Done => turn.on_line("data: [DONE]", Err(String::new())),
        };
        events.append(&mut sent);
        match step {
            StreamStep::Continue => {}
            StreamStep::Stop => break,
            StreamStep::Fail(error) => panic!("{}", error.message),
        }
    }
    (events, read)
}

fn finished(lines: Vec<Line>) -> (Vec<SessionEvent>, TurnOutput) {
    let mut turn = StreamTurn::new(1);
    let (events, _) = play(&mut turn, lines);
    (events, turn.finish())
}

fn content_deltas(events: &[SessionEvent]) -> Vec<String> {
    events
        .iter()
        .filter_map(|event| match event {
            SessionEvent::ContentDelta(delta) => Some(delta.clone()),
            _ => None,
        })
        .collect()
}

fn sent(sending: Sending) -> PendingRequest {
    match sending {
        Sending::Send(pending) => pending,
        Sending::Done(_) => panic!("the request should be sent"),
    }
}

fn done(sending: Sending) -> Result<TurnOutput, ClientError> {
    match sending {
        Sending::Done(result) => result,
        Sending::Send(_) => panic!("the turn should be over"),
    }
}

fn bad_request(message: &str) -> ClientError {
    ClientError::new(ErrorCode::HttpBadRequest, "请求参数错误")
        .with_kv("provider_message", Json::text(message))
}

fn said(messages: &[Message]) -> Vec<(String, Option<String>)> {
    messages
        .iter()
        .map(|message| (message.role.clone(), message.content.clone()))
        .collect()
}

fn rendered(messages: &[Message]) -> String {
    messages
        .iter()
        .filter_map(|message| message.content.as_deref())
        .collect::<Vec<_>>()
        .join("\n")
}

fn tc(id: Option<&str>, index: usize, name: &str) -> ToolCall {
    ToolCall {
        id: id.map(str::to_string),
        call_type: Some("function".to_string()),
        function: ToolFunctionCall {
            name: name.to_string(),
            arguments: "{}".to_string(),
        },
        index,
    }
}

#[test]
fn usage_behind_tool_calls_is_told_per_request_and_added_up_once() {
    let mut session = new_streaming_session();
    session.usage_turn_id = session
        .capture_user_turn("执行任务", &AssembledTurn::default(), NOW)
        .unwrap();
    let mut request_usages = Vec::new();
    let mut total: Option<Usage> = None;

    let first = vec![
        Line::Chunk(stream_tool_call_chunk("unused_tool")),
        Line::Chunk(stream_tool_finish_chunk()),
        Line::Chunk(stream_usage_chunk(
            r#"{"prompt_tokens":10,"completion_tokens":2,"total_tokens":12,
                "prompt_tokens_details":{"cached_tokens":4}}"#,
        )),
        Line::Done,
    ];
    let second = vec![
        Line::Chunk(stream_content_chunk("完成", Some("stop"))),
        Line::Chunk(stream_usage_chunk(
            r#"{"prompt_tokens":20,"completion_tokens":1,"total_tokens":21,
                "prompt_tokens_details":{"cached_tokens":10}}"#,
        )),
        Line::Chunk(stream_usage_chunk(
            r#"{"prompt_tokens":22,"completion_tokens":3,"total_tokens":25,
                "prompt_tokens_details":{"cached_tokens":15}}"#,
        )),
        Line::Done,
    ];
    for lines in [first, second] {
        let request = session.snapshot();
        let (_, next) = session.begin_request(&request, false);
        let pending = sent(next);
        let (_, output) = finished(lines);
        let (events, next) = session.after_attempt(pending, Ok(output), false);
        for event in events {
            if let SessionEvent::RequestUsage {
                turn_id,
                request_id,
                attempt,
                usage,
            } = event
            {
                request_usages.push((turn_id, request_id, attempt, usage));
            }
        }
        let output = done(next).unwrap();
        match (&mut total, output.usage) {
            (Some(total), Some(usage)) => total.accumulate_request(&usage),
            (none, usage) => *none = usage,
        }
        session.record_answer(&output, NOW).unwrap();
    }
    let turn_usage = total.unwrap();

    assert_eq!(request_usages.len(), 2);
    assert!(request_usages[0].0 > 0);
    assert_eq!(request_usages[0].0, request_usages[1].0);
    assert_eq!(request_usages[0].1, 1);
    assert_eq!(request_usages[1].1, 2);
    assert_eq!(request_usages[0].2, 1);
    assert_eq!(request_usages[1].2, 1);
    assert_eq!(request_usages[0].3.cached_prompt_tokens, Some(4));
    assert_eq!(request_usages[1].3.total_tokens, 25);
    assert_eq!(request_usages[1].3.cached_prompt_tokens, Some(15));
    assert_eq!(turn_usage.prompt_tokens, 32);
    assert_eq!(turn_usage.completion_tokens, 5);
    assert_eq!(turn_usage.total_tokens, 37);
    assert_eq!(turn_usage.cached_prompt_tokens, Some(19));
    assert_eq!(turn_usage.request_count, 2);
    assert_eq!(turn_usage.cache_usage_known_requests, 2);
}

#[test]
fn stream_cancel_before_response_returns_cancelled() {
    let mut session = new_streaming_session();
    session
        .capture_user_turn("你好", &AssembledTurn::default(), NOW)
        .unwrap();
    let request = session.snapshot();
    let (_, next) = session.begin_request(&request, false);
    let pending = sent(next);
    session.handle.cancel();
    assert!(session.handle.cancelled_since(0));
    let (_, next) = session.after_attempt(pending, Ok(TurnOutput::cancelled()), true);
    let output = done(next).unwrap();
    assert!(matches!(output.status, TurnStatus::Cancelled));
    assert_eq!(session.record_answer(&output, NOW), None);
    assert!(session
        .handle
        .get_conversation()
        .messages
        .iter()
        .all(|message| message.role != "assistant"));
}

#[test]
fn stream_disconnect_after_partial_preserves_partial() {
    let mut session = new_streaming_session();
    session
        .capture_user_turn("开始生成", &AssembledTurn::default(), NOW)
        .unwrap();
    let mut turn = StreamTurn::new(1);
    let (events, _) = play(
        &mut turn,
        vec![Line::Chunk(stream_content_chunk("已生成部分", None))],
    );
    assert_eq!(content_deltas(&events), vec!["已生成部分"]);
    assert!(matches!(
        turn.on_error(ClientError::new(ErrorCode::Internal, "连接中断")),
        StreamStep::Stop
    ));
    let output = turn.finish();
    assert!(matches!(output.status, TurnStatus::Error(_)));
    assert_eq!(output.finish_reason.as_deref(), Some("interrupted"));
    assert!(session.record_answer(&output, NOW).is_some());
    assert!(session
        .handle
        .get_conversation()
        .messages
        .iter()
        .any(|message| {
            message.role == "assistant" && message.content.as_deref() == Some("已生成部分")
        }));
}

#[test]
fn stream_length_preserves_finish_reason() {
    let mut session = new_streaming_session();
    session
        .capture_user_turn("生成长文", &AssembledTurn::default(), NOW)
        .unwrap();
    let (events, output) = finished(vec![
        Line::Chunk(stream_content_chunk("达到上限", None)),
        Line::Chunk(stream_content_chunk("", Some("length"))),
        Line::Done,
    ]);
    assert_eq!(content_deltas(&events)[0], "达到上限");
    assert!(matches!(output.status, TurnStatus::Completed));
    assert_eq!(output.finish_reason.as_deref(), Some("length"));
    assert!(session.record_answer(&output, NOW).is_some());
}

#[test]
fn recognized_bad_request_is_repaired_once() {
    let mut session = new_streaming_session();
    session.preload_history(
        &vec![
            stored_message(Some(1), None, "user", "旧问题"),
            ConversationNodeSeed {
                node_id: Some(2),
                parent: Some(1),
                turn_id: Some(1),
                timestamp: Some("2026-07-31T00:00:01Z".to_string()),
                message: Message::assistant(Some("旧正文"), Some("旧思考"), None),
            },
        ],
        Some(2),
    );
    let mut requests = 0;
    for question in ["新问题", "再问一次"] {
        session
            .capture_user_turn(question, &AssembledTurn::default(), NOW)
            .unwrap();
        let request = session.sanitize_request(session.snapshot());
        let (_, mut next) = session.begin_request(&request, false);
        let output = loop {
            match next {
                Sending::Done(result) => break result.unwrap(),
                Sending::Send(pending) => {
                    requests += 1;
                    let refused = pending
                        .request
                        .messages
                        .iter()
                        .any(|message| message.reasoning_content.is_some());
                    let result = if refused {
                        Err(bad_request("reasoning_content is not allowed"))
                    } else {
                        let lines = vec![
                            Line::Chunk(stream_content_chunk("修复成功", Some("stop"))),
                            Line::Done,
                        ];
                        Ok(finished(lines).1)
                    };
                    next = session.after_attempt(pending, result, false).1;
                }
            }
        };
        assert_eq!(output.content, "修复成功");
        assert!(matches!(output.status, TurnStatus::Completed));
        session.record_answer(&output, NOW).unwrap();
    }
    assert_eq!(requests, 3);
}

#[test]
fn unknown_bad_request_is_not_retried() {
    let mut session = new_streaming_session();
    session
        .capture_user_turn("触发错误", &AssembledTurn::default(), NOW)
        .unwrap();
    let request = session.snapshot();
    let (_, next) = session.begin_request(&request, false);
    let refused = bad_request("unknown parameter combination");
    let (_, next) = session.after_attempt(sent(next), Err(refused), false);
    assert_eq!(done(next).unwrap_err().code, ErrorCode::HttpBadRequest);
}

#[test]
fn recognizes_common_context_overflow_formats() {
    let request = overflow_request();
    for provider_message in [
        "context_length_exceeded",
        "This model's maximum context length is 8192 tokens",
        "Prompt is too long",
        "input length and max_tokens exceed context limit",
        "request exceeds the context window",
        "too many tokens in the request",
        "maximum number of tokens exceeded",
    ] {
        let error = bad_request(provider_message);
        let (_, rule) = LLMSession::repair_after_bad_request(&request, &error)
            .expect("a common form of the message");
        assert_eq!(rule, "context_length_exceeded");
    }
}

#[test]
fn context_overflow_retries_once_with_fewer_messages() {
    let mut session = LLMSession::new(config(Some(8192)), Arc::new(ToolRegistry::new()));
    let (_, next) = session.begin_request(&overflow_request(), false);
    let first = sent(next);
    let first_count = first.request.messages.len();
    let refused = bad_request("maximum context length exceeded: prompt is too long");
    let (events, next) = session.after_attempt(first, Err(refused), false);
    let second = sent(next);
    assert_eq!(second.attempt, 2);
    assert!(second.request.messages.len() < first_count);
    assert!(events
        .iter()
        .any(|event| matches!(event, SessionEvent::ContextTrimmed { .. })));
    let (_, output) = finished(vec![
        Line::Chunk(stream_content_chunk("恢复成功", None)),
        Line::Done,
    ]);
    let (_, next) = session.after_attempt(second, Ok(output), false);
    assert_eq!(done(next).unwrap().content, "恢复成功");
}

#[test]
fn repeated_context_overflow_returns_chinese_budget_error() {
    let mut session = LLMSession::new(config(Some(8192)), Arc::new(ToolRegistry::new()));
    let text = "maximum context length exceeded: prompt is too long";
    let (_, next) = session.begin_request(&overflow_request(), false);
    let (_, next) = session.after_attempt(sent(next), Err(bad_request(text)), false);
    let (_, next) = session.after_attempt(sent(next), Err(bad_request(text)), false);
    let error = done(next).unwrap_err();
    assert_eq!(error.code, ErrorCode::ContextBudgetExceeded);
    assert!(error.message.contains("上下文"));
    assert!(!error.message.contains("maximum context length"));
}

#[test]
fn retry_delay_of_the_service_is_bounded() {
    assert_eq!(tool_retry_delay_ms(Some(3_600_000), 0), 5_000);
    assert_eq!(tool_retry_delay_ms(None, 1), 800);
}

#[test]
fn retry_delays_double_up_to_the_bound() {
    assert_eq!(tool_retry_delay_ms(None, 0), 400);
    assert_eq!(tool_retry_delay_ms(None, 2), 1_600);
    assert_eq!(tool_retry_delay_ms(None, 3), 3_200);
    assert_eq!(tool_retry_delay_ms(None, 4), 5_000);
    assert_eq!(tool_retry_delay_ms(None, u32::MAX), 5_000);
    assert_eq!(tool_retry_delay_ms(Some(0), 9), 0);
    assert_eq!(tool_retry_delay_ms(Some(123), 9), 123);
}

#[test]
fn stream_cancel_after_partial_preserves_partial_and_recovers() {
    let mut session = new_streaming_session();
    session
        .capture_user_turn("第一轮", &AssembledTurn::default(), NOW)
        .unwrap();
    let mut turn = StreamTurn::new(1);
    let (events, _) = play(
        &mut turn,
        vec![Line::Chunk(stream_content_chunk("半句", None))],
    );
    assert_eq!(content_deltas(&events), vec!["半句"]);
    turn.on_cancel();
    let output = turn.finish();
    assert!(matches!(output.status, TurnStatus::Cancelled));
    session.record_answer(&output, NOW).unwrap();
    assert!(session
        .handle
        .get_conversation()
        .messages
        .iter()
        .any(|m| m.role == "assistant" && m.content.as_deref() == Some("半句")));

    session
        .capture_user_turn("第二轮", &AssembledTurn::default(), NOW)
        .unwrap();
    let (events, output) = finished(vec![
        Line::Chunk(stream_content_chunk("完成", None)),
        Line::Done,
    ]);
    assert_eq!(content_deltas(&events), vec!["完成"]);
    assert!(matches!(output.status, TurnStatus::Completed));
}

#[test]
fn non_stream_cancel_while_waiting_response_returns_cancelled() {
    let mut session = new_test_session();
    session.set_model("mock-model");
    session.set_stream(false);
    session
        .capture_user_turn("非流式", &AssembledTurn::default(), NOW)
        .unwrap();
    let request = session.snapshot();
    let (_, next) = session.begin_request(&request, false);
    let (_, next) = session.after_attempt(sent(next), Ok(TurnOutput::cancelled()), true);
    assert!(matches!(
        done(next).unwrap().status,
        TurnStatus::Cancelled
    ));

    let (events, next) = session.begin_request(&request, true);
    assert!(events.is_empty());
    assert!(matches!(
        done(next).unwrap().status,
        TurnStatus::Cancelled
    ));
}

#[test]
fn set_task_context_keeps_latest_without_waiting_for_drive() {
    let mut session = new_test_session();
    for index in 0..64 {
        let mut ctx = TaskContext::default();
        ctx.attributes.insert("index", index.to_string());
        session.handle.set_task_context(ctx);
    }
    assert_eq!(session.handle.context.attr("index"), Some("63"));
}

#[test]
fn preflight_uses_the_real_request_and_leaves_the_tree_alone() {
    let mut session = LLMSession::new(config(Some(4_096)), Arc::new(ToolRegistry::new()));
    session.set_model("mock-model");
    let mut context = TaskContext::default();
    context.attributes.insert("project", "合成项目".to_string());
    let look = |session: &LLMSession, context: &TaskContext| {
        let request = session.request_for_pending("下一条消息", &assemble(context));
        let serialized = rendered(&request.messages);
        session.preflight(&request, serialized.as_bytes())
    };

    let before = session.handle.get_conversation();
    let first = look(&session, &context);
    let second = look(&session, &context);
    let after = session.handle.get_conversation();

    assert_eq!(first.estimated_input_tokens, second.estimated_input_tokens);
    assert_eq!(first.request_fingerprint, second.request_fingerprint);
    assert_eq!(first.estimate_source, "full");
    assert_eq!(first.context_window_tokens, Some(4_096));
    assert_eq!(first.output_reserve_tokens, Some(615));
    assert_eq!(first.safety_reserve_tokens, Some(1_024));
    assert_eq!(first.input_budget_tokens, Some(4_096 - 615 - 1_024));
    assert_eq!(first.suggest_compaction, Some(false));
    assert_eq!(before.messages.len(), after.messages.len());
    assert_eq!(before.model, after.model);

    let mut changed = TaskContext::default();
    changed
        .attributes
        .insert("project", "另一个项目".to_string());
    let changed = look(&session, &changed);
    assert_ne!(first.request_fingerprint, changed.request_fingerprint);
}

#[test]
fn apply_assembled_puts_instructions_only_into_the_system_front() {
    let session = new_test_session();
    let request = ChatRequest {
        messages: vec![Message::system("基础系统提示"), Message::user("问题")],
        ..ChatRequest::default()
    };
    let turn = AssembledTurn {
        context_messages: vec!["第一段".to_string(), "第二段".to_string()],
        instruction_messages: vec!["策略一".to_string(), "策略二".to_string()],
        ..Default::default()
    };

    let assembled = session.apply_assembled(request, &turn);
    assert_eq!(assembled.messages.len(), 4);
    assert_eq!(
        assembled.messages[0].content.as_deref(),
        Some("基础系统提示")
    );
    assert_eq!(assembled.messages[1].content.as_deref(), Some("策略一"));
    assert_eq!(assembled.messages[2].content.as_deref(), Some("策略二"));
    assert_eq!(assembled.messages[3].content.as_deref(), Some("问题"));
    assert!(assembled
        .messages
        .iter()
        .all(|message| { !matches!(message.content.as_deref(), Some("第一段" | "第二段")) }));
}

#[test]
fn unchanged_material_is_recorded_once_and_the_next_request_goes_on_from_the_last() {
    let mut session = new_test_session();
    let turn = assemble(&entry("固定参考"));

    let first_user = session.capture_user_turn("第一问", &turn, NOW).unwrap();
    let first_request = session.snapshot();
    session
        .add_message(Message::assistant(Some("第一答"), None, None), NOW)
        .unwrap();
    session.capture_user_turn("第二问", &turn, NOW).unwrap();
    let second_request = session.snapshot();

    assert_eq!(session.handle.context_snapshots.len(), 1);
    assert_eq!(
        session.handle.context_snapshots[0].owner_node_id,
        first_user
    );
    assert_eq!(
        said(&second_request.messages[..first_request.messages.len()]),
        said(&first_request.messages)
    );
    assert!(second_request.messages[0]
        .content
        .as_deref()
        .unwrap()
        .contains("固定参考"));
    assert_eq!(
        second_request.messages.last().unwrap().content.as_deref(),
        Some("第二问")
    );
}

#[test]
fn request_trimmed_of_early_rounds_still_carries_the_valid_material() {
    let mut session = LLMSession::new(config(Some(3_500)), Arc::new(ToolRegistry::new()));
    session.set_model("mock-model");
    let turn = assemble(&entry(&format!("当前有效资料-{}", "资料".repeat(120))));
    for round in 1..=4 {
        let node_id = session
            .capture_user_turn(&format!("第{round}问-{}", "问题".repeat(400)), &turn, NOW)
            .unwrap();
        session.usage_turn_id = node_id;
        if round < 4 {
            session
                .add_message(
                    Message::assistant(
                        Some(&format!("第{round}答-{}", "回答".repeat(400))),
                        None,
                        None,
                    ),
                    NOW,
                )
                .unwrap();
        }
    }

    let request = session.snapshot();
    let (_, next) = session.begin_request(&request, false);
    let pending = sent(next);
    let rendered = rendered(&pending.request.messages);
    assert!(rendered.contains("当前有效资料"));
    assert!(rendered.contains("第4问"));
    assert!(!rendered.contains("第1问"));
    assert!(rendered.contains("历史") || rendered.contains("早期"));
}

#[test]
fn changed_and_cleared_material_are_recorded_as_versions() {
    let mut session = new_test_session();
    session
        .capture_user_turn("第一问", &assemble(&entry("版本一")), NOW)
        .unwrap();
    session
        .add_message(Message::assistant(Some("答一"), None, None), NOW)
        .unwrap();
    session
        .capture_user_turn("第二问", &assemble(&entry("版本二")), NOW)
        .unwrap();
    session
        .add_message(Message::assistant(Some("答二"), None, None), NOW)
        .unwrap();
    session
        .capture_user_turn("第三问", &assemble(&TaskContext::default()), NOW)
        .unwrap();

    let snapshots = session.handle.get_context_snapshots();
    assert_eq!(snapshots.len(), 3);
    assert!(snapshots[2].sources.is_empty());
    let request = session.snapshot();
    let content = |index: usize| request.messages[index].content.clone().unwrap();
    assert!(content(0).contains("版本一"));
    assert!(content(2).contains("版本二"));
    assert!(content(4).contains("没有有效参考材料"));
}

#[test]
fn request_of_a_branch_has_only_the_material_of_its_ancestors() {
    let mut session = new_test_session();
    session
        .capture_user_turn("根问题", &assemble(&entry("共同祖先")), NOW)
        .unwrap();
    let assistant = session
        .add_message(Message::assistant(Some("根回答"), None, None), NOW)
        .unwrap();
    session
        .capture_user_turn("旧分支", &assemble(&entry("废弃分支")), NOW)
        .unwrap();
    assert_eq!(session.handle.checkout(assistant), Ok(false));
    session
        .capture_user_turn("新分支", &assemble(&entry("当前分支")), NOW)
        .unwrap();

    let rendered = rendered(&session.snapshot().messages);
    assert!(rendered.contains("共同祖先"));
    assert!(rendered.contains("当前分支"));
    assert!(!rendered.contains("废弃分支"));
}

#[test]
fn submitted_turns_keep_the_front_of_the_request_and_the_rank_of_material() {
    let mut session = new_streaming_session();
    let turn = assemble(&entry("固定资料"));
    let mut requests = Vec::new();
    for (question, answer) in [("第一问", "第一答"), ("第二问", "第二答")] {
        session.capture_user_turn(question, &turn, NOW).unwrap();
        let request = session.apply_assembled(session.snapshot(), &turn);
        let (_, next) = session.begin_request(&request, false);
        let pending = sent(next);
        requests.push(said(&pending.request.messages));
        let (_, output) = finished(vec![
            Line::Chunk(stream_content_chunk(answer, None)),
            Line::Done,
        ]);
        let (_, next) = session.after_attempt(pending, Ok(output), false);
        session.record_answer(&done(next).unwrap(), NOW).unwrap();
    }
    let (first, second) = (&requests[0], &requests[1]);
    assert_eq!(&second[..first.len()], first.as_slice());
    assert_eq!(first[0].0, "user");
    assert!(first[0].1.as_deref().unwrap().contains("固定资料"));
    assert_eq!(second.last().unwrap().1.as_deref(), Some("第二问"));
    assert_eq!(session.handle.get_context_snapshots().len(), 1);
}

#[test]
fn context_submitted_with_a_turn_replaces_one_told_before() {
    let mut session = new_streaming_session();
    let mut stale = TaskContext {
        task_type: "creative_writing".to_string(),
        ..TaskContext::default()
    };
    stale
        .instruction_attributes
        .insert("policy", "旧策略".to_string());
    stale.flags.insert("read_only", false);
    stale.flags.insert("auto_confirm_writes", true);
    session.handle.set_task_context(stale);

    let mut submitted = TaskContext {
        task_type: "proofreading".to_string(),
        ..TaskContext::default()
    };
    submitted
        .instruction_attributes
        .insert("policy", "新策略".to_string());
    submitted.flags.insert("read_only", true);
    submitted.flags.insert("auto_confirm_writes", false);
    let orchestrator = DefaultOrchestrator::new(Arc::new(ToolRegistry::new()));
    session.handle.set_task_context(submitted.clone());
    session
        .submit_user_turn(Some(&orchestrator), "按新策略处理", Some(submitted), NOW)
        .unwrap();
    let turn = assemble_turn(Some(&orchestrator), &session.handle.context).unwrap();
    assert!(turn.read_only);
    let request = session.turn_request(None, &turn, &vec![], 0, false).unwrap();
    let rendered = rendered(&request.messages);
    assert!(rendered.contains("新策略"));
    assert!(!rendered.contains("旧策略"));
    assert_eq!(
        request.temperature.map(|value| f64::from_bits(value.bits)),
        Some(0.1)
    );
}

#[test]
fn sanitize_fills_missing_tool_results() {
    let messages = vec![
        Message::user("q"),
        Message::assistant(
            None,
            None,
            Some(vec![tc(Some("a"), 0, "t1"), tc(Some("b"), 1, "t2")]),
        ),
        Message::tool("ok", "a"),
    ];
    let out = LLMSession::sanitize_tool_call_blocks(messages);
    assert_eq!(out.len(), 4);
    assert_eq!(out[3].role, "tool");
    assert_eq!(out[3].tool_call_id.as_deref(), Some("b"));
}

#[test]
fn sanitize_rewrites_mismatched_ids_by_position() {
    let messages = vec![
        Message::assistant(None, None, Some(vec![tc(Some("prov_1"), 0, "t1")])),
        Message::tool("ok", "t1:idx:0"),
    ];
    let out = LLMSession::sanitize_tool_call_blocks(messages);
    assert_eq!(out.len(), 2);
    assert_eq!(out[1].tool_call_id.as_deref(), Some("prov_1"));
}

#[test]
fn sanitize_drops_orphan_tool_messages() {
    let messages = vec![
        Message::user("q"),
        Message::tool("orphan", "x"),
        Message::assistant(Some("a"), None, None),
    ];
    let out = LLMSession::sanitize_tool_call_blocks(messages);
    assert_eq!(out.len(), 2);
    assert!(out.iter().all(|m| m.role != "tool"));
}

#[test]
fn sanitize_drops_reasoning_only_assistant() {
    let messages = vec![
        Message::user("问题"),
        Message::assistant(None, Some("只有思考"), None),
    ];
    let out = LLMSession::sanitize_messages(messages);
    assert_eq!(out.len(), 1);
    assert_eq!(out[0].role, "user");
}

#[test]
fn sanitize_coalesces_consecutive_assistant_segments() {
    let messages = vec![
        Message::user("问题"),
        Message::assistant(Some("前半"), Some("思考一"), None),
        Message::assistant(Some("后半"), Some("思考二"), None),
    ];
    let out = LLMSession::sanitize_messages(messages);
    assert_eq!(out.len(), 2);
    assert_eq!(out[1].content.as_deref(), Some("前半后半"));
    assert_eq!(out[1].reasoning_content.as_deref(), Some("思考一思考二"));
}

#[test]
fn sanitizing_twice_changes_nothing_more() {
    let messages = vec![
        Message::user("q"),
        Message::assistant(None, Some("想"), None),
        Message::assistant(Some("a"), None, Some(vec![tc(None, 0, "t1")])),
        Message::tool("late", "x"),
        Message::tool("orphan", "y"),
        Message::assistant(Some("b"), None, None),
    ];
    let once = LLMSession::sanitize_messages(LLMSession::sanitize_tool_call_blocks(messages));
    let snapshot = said(&once);
    let twice = LLMSession::sanitize_messages(LLMSession::sanitize_tool_call_blocks(once));
    assert_eq!(said(&twice), snapshot);
}

#[test]
fn stripping_tells_whether_anything_was_there() {
    let mut messages = vec![
        Message::user("q"),
        Message::assistant(Some("a"), Some("想"), None),
    ];
    assert!(LLMSession::strip_reasoning_content(&mut messages));
    assert_eq!(messages[1].reasoning_content, None);
    assert_eq!(messages[1].content.as_deref(), Some("a"));
    assert!(!LLMSession::strip_reasoning_content(&mut messages));
}

#[test]
fn preload_history_preserves_v3_root_when_file_order_is_unordered() {
    let mut session = new_test_session();
    session.preload_history(
        &vec![
            stored_message(Some(2), Some(1), "assistant", "回复"),
            stored_message(Some(1), None, "user", "问题"),
        ],
        Some(2),
    );

    let tree = &session.handle.tree;
    assert_eq!(tree.get_node(1).unwrap().parent, None);
    assert_eq!(tree.get_node(2).unwrap().parent, Some(1));
    assert_eq!(tree.path_to_head(), vec![1, 2]);
}

#[test]
fn preload_history_repairs_persisted_parent_cycle() {
    let mut session = new_test_session();
    session.preload_history(
        &vec![
            stored_message(Some(1), Some(3), "user", "节点1"),
            stored_message(Some(2), Some(1), "assistant", "节点2"),
            stored_message(Some(3), Some(2), "user", "节点3"),
        ],
        Some(3),
    );

    let tree = &session.handle.tree;
    assert_eq!(tree.get_node(1).unwrap().parent, None);
    assert_eq!(tree.path_to_head(), vec![1, 2, 3]);
}

#[test]
fn invalid_stored_head_falls_back_to_the_last_message() {
    let mut session = new_test_session();
    session.preload_history(
        &vec![
            stored_message(Some(1), None, "user", "问题"),
            stored_message(Some(2), Some(1), "assistant", "回复"),
        ],
        Some(999),
    );

    let tree = &session.handle.tree;
    assert_eq!(tree.head(), Some(2));
    assert_eq!(tree.linearize().len(), 2);
}

#[test]
fn valid_stored_head_is_used() {
    let mut session = new_test_session();
    session.preload_history(
        &vec![
            stored_message(Some(1), None, "user", "问题"),
            stored_message(Some(2), Some(1), "assistant", "回复"),
        ],
        Some(1),
    );

    let tree = &session.handle.tree;
    assert_eq!(tree.head(), Some(1));
    assert_eq!(tree.linearize().len(), 1);
}

#[test]
fn missing_head_falls_back_to_the_last_message() {
    let mut session = new_test_session();
    session.preload_history(
        &vec![
            stored_message(Some(1), None, "user", "问题"),
            stored_message(Some(2), Some(1), "assistant", "回复"),
        ],
        None,
    );

    let tree = &session.handle.tree;
    assert_eq!(tree.head(), Some(2));
    assert_eq!(tree.linearize().len(), 2);
}

#[test]
fn head_of_a_tree_snapshot_is_among_its_nodes() {
    let mut session = new_test_session();
    session.preload_history(
        &vec![
            stored_message(Some(1), None, "user", "问题"),
            stored_message(Some(2), Some(1), "assistant", "回复"),
        ],
        Some(2),
    );

    let (nodes, head) = session.handle.tree_snapshot();
    assert!(head.map_or(true, |head| nodes.iter().any(|node| node.id == head)));
}

#[test]
fn stream_turn_end_waits_for_qwen_usage_tail() {
    let usage = Usage {
        prompt_tokens: 10,
        completion_tokens: 20,
        total_tokens: 30,
        ..Usage::default()
    };

    assert!(!LLMSession::should_stop_after_stream_turn_end(
        &TurnStatus::Completed,
        &None
    ));

    assert!(LLMSession::should_stop_after_stream_turn_end(
        &TurnStatus::Completed,
        &Some(usage)
    ));

    assert!(LLMSession::should_stop_after_stream_turn_end(
        &TurnStatus::Cancelled,
        &None
    ));
}

#[test]
fn changing_the_model_clears_the_baseline() {
    let mut session = new_test_session();
    let request = ChatRequest {
        messages: vec![Message::user("问题")],
        model: "old-model".to_string(),
        ..ChatRequest::default()
    };
    session.last_baseline = RequestBaseline::new(100, &request, 1);

    session.set_model("new-model");
    assert!(session.last_baseline.is_none());

    session.last_baseline = RequestBaseline::new(5, &request, 1);
    assert!(session.last_baseline.is_some());
    session.set_model("another-model");
    assert!(session.last_baseline.is_none());
}

#[test]
fn rules_of_repair_are_told_apart() {
    let mut request = overflow_request();
    request
        .messages
        .push(Message::assistant(None, Some("想"), None));
    let rule = |request: &ChatRequest, message: &str| {
        LLMSession::repair_after_bad_request(request, &bad_request(message)).map(|found| found.1)
    };
    assert_eq!(
        rule(&request, "reasoning_content is unsupported"),
        Some("unsupported_reasoning_content")
    );
    assert_eq!(
        rule(&request, "Invalid assistant message: content or tool_calls must be set"),
        Some("invalid_assistant_message")
    );
    request.tools = Some(vec![]);
    assert_eq!(rule(&request, "tools must contain at least one item"), Some("empty_tools"));
    assert_eq!(rule(&request, "no idea"), None);
    let other = ClientError::new(ErrorCode::Internal, "x")
        .with_kv("provider_message", Json::text("prompt is too long"));
    assert!(LLMSession::repair_after_bad_request(&request, &other).is_none());
    assert!(!LLMSession::is_context_overflow_error(&other));
    assert!(LLMSession::is_context_overflow_error(&bad_request(
        "Too Many Tokens"
    )));
}

fn response(choices: Vec<Choice>, usage: Option<Usage>) -> ChatResponse {
    ChatResponse {
        id: "r".to_string(),
        object: "chat.completion".to_string(),
        created: 0,
        model: "mock-model".to_string(),
        choices,
        usage,
    }
}

#[test]
fn whole_answers_are_read_or_refused() {
    let choice = Choice {
        index: 0,
        message: Message::assistant(Some("答"), Some("想"), None),
        finish_reason: "stop".to_string(),
    };
    let (events, output) =
        LLMSession::handle_non_stream("{}", Ok(response(vec![choice], None))).unwrap();
    assert_eq!(content_deltas(&events), vec!["答"]);
    assert_eq!(output.content, "答");
    assert_eq!(output.reasoning, "想");
    assert_eq!(output.finish_reason.as_deref(), Some("stop"));
    assert!(matches!(output.status, TurnStatus::Completed));

    let empty = LLMSession::handle_non_stream("", Err("eof".to_string()));
    assert_eq!(empty.unwrap_err().code, ErrorCode::LlmResponseEmpty);
    let broken = LLMSession::handle_non_stream("<html>", Err("bad".to_string()));
    assert_eq!(broken.unwrap_err().code, ErrorCode::LlmResponseParseError);
    assert!(LLMSession::handle_non_stream("{}", Ok(response(vec![], None))).is_err());
}

#[test]
fn continuation_needs_the_head_to_be_an_answer() {
    let mut session = new_test_session();
    session.preload_history(
        &vec![
            stored_message(Some(1), None, "user", "写一篇长文"),
            stored_message(Some(2), Some(1), "assistant", "已有正文"),
        ],
        Some(2),
    );
    assert_eq!(session.handle.continue_generation(2), Ok(()));
    assert_eq!(
        session.handle.continue_generation(1),
        Err("续写目标不是当前会话 head".to_string())
    );
    assert_eq!(session.handle.checkout(1), Ok(true));
    assert_eq!(
        session.handle.continue_generation(1),
        Err("续写目标必须是助手消息".to_string())
    );
    assert_eq!(
        session.handle.checkout(77),
        Err("节点 77 不存在".to_string())
    );
    assert_eq!(session.handle.get_children(1), vec![2]);
    assert_eq!(session.handle.head(), Some(1));
    assert!(session.handle.get_node(2).is_some());
    assert!(session.handle.get_node(3).is_none());
}

#[test]
fn settings_of_the_handle_reach_the_conversation() {
    let mut session = new_test_session();
    session.load_sense(&vec!["规则".to_string()], None);
    session.handle.set_model("m");
    session.handle.set_max_tokens(99);
    session.handle.set_thinking(true);
    session.handle.set_stop(vec!["。".to_string()]);
    session.handle.set_n(2);
    session.handle.set_tool_choice("none");
    session.handle.set_response_format(Json::text("json"));
    session.add_message(Message::user("问"), NOW).unwrap();
    let request = session.handle.get_conversation();
    assert_eq!(request.model, "m");
    assert_eq!(request.max_tokens, Some(99));
    assert_eq!(request.n, Some(2));
    assert_eq!(request.tool_choice.as_deref(), Some("none"));
    assert_eq!(request.stop, Some(vec!["。".to_string()]));
    assert_eq!(request.messages[0].role, "system");
    assert_eq!(request.messages[1].content.as_deref(), Some("问"));
}

#[test]
fn material_of_unknown_messages_and_second_pieces_are_not_loaded() {
    let mut session = new_test_session();
    session.preload_history(&vec![stored_message(Some(1), None, "user", "问题")], None);
    let bound = |text: &str, owner: u64| {
        PreparedContextSnapshot::from_messages(&[text.to_string()]).bind(owner)
    };
    session.preload_context_snapshots(&vec![bound("A", 1), bound("B", 5), bound("C", 1)]);
    let (nodes, head, snapshots) = session.handle.persistence_snapshot();
    assert_eq!(nodes.len(), 1);
    assert_eq!(head, Some(1));
    assert_eq!(snapshots.len(), 1);
    assert_eq!(snapshots[0].owner_node_id, 1);
    assert_eq!(snapshots[0].sources[0].content, "A");
}

#[test]
fn turns_are_numbered_and_begin_at_the_head() {
    let mut session = new_test_session();
    let node = session.add_message(Message::user("问"), NOW).unwrap();
    match session.begin_turn() {
        SessionEvent::TurnBegin { turn_id, node_id } => {
            assert_eq!(turn_id, 1);
            assert_eq!(node_id, node);
        }
        _ => panic!("the beginning of a turn"),
    }
}

#[test]
fn turn_brings_its_own_context_and_a_later_one_counts_behind_it() {
    let orchestrator = DefaultOrchestrator::new(Arc::new(ToolRegistry::new()));
    let mut session = new_streaming_session();
    session.handle.set_task_context(entry("先前资料"));
    let own = TaskContext {
        task_type: "proofreading".to_string(),
        ..entry("本轮资料")
    };
    session.handle.set_task_context(own.clone());
    let later = TaskContext {
        task_type: "creative_writing".to_string(),
        ..entry("后来资料")
    };
    session.handle.set_task_context(later);
    let id = session
        .submit_user_turn(Some(&orchestrator), "问题", Some(own), NOW)
        .unwrap();
    assert_eq!(session.handle.head(), Some(id));

    let turn = assemble_turn(Some(&orchestrator), &session.handle.context).unwrap();
    let request = session.turn_request(None, &turn, &vec![], 1, false).unwrap();
    let rendered = rendered(&request.messages);
    assert!(rendered.contains("本轮资料"));
    assert!(!rendered.contains("先前资料"));
    assert!(!rendered.contains("后来资料"));
    assert_eq!(
        request.temperature.map(|value| f64::from_bits(value.bits)),
        Some(0.85)
    );
}

#[test]
fn turn_without_a_context_uses_the_one_told_last() {
    let orchestrator = DefaultOrchestrator::new(Arc::new(ToolRegistry::new()));
    let mut session = new_streaming_session();
    session.handle.set_task_context(entry("资料一"));
    session.handle.set_task_context(entry("资料二"));
    session
        .submit_user_turn(Some(&orchestrator), "问题", None, NOW)
        .unwrap();
    let text = rendered(&session.snapshot().messages);
    assert!(text.contains("资料二"));
    assert!(!text.contains("资料一"));

    let mut plain = new_streaming_session();
    plain
        .submit_user_turn(None::<&DefaultOrchestrator>, "问题", Some(entry("资料")), NOW)
        .unwrap();
    assert_eq!(plain.snapshot().messages.len(), 1);
    assert_eq!(plain.snapshot().messages[0].content.as_deref(), Some("问题"));
}

struct Refusing;

impl Orchestrate for Refusing {
    fn assemble(&self, ctx: &TaskContext) -> Result<AssembledTurn, ClientError> {
        Err(ClientError::new(ErrorCode::Internal, &ctx.task_type))
    }
}

#[test]
fn turn_that_cannot_be_assembled_is_not_taken_in() {
    let mut session = new_streaming_session();
    let context = TaskContext {
        task_type: "不支持".to_string(),
        ..TaskContext::default()
    };
    let error = session
        .submit_user_turn(Some(&Refusing), "问题", Some(context), NOW)
        .unwrap_err();
    assert_eq!(error.message, "不支持");
    assert_eq!(session.handle.head(), None);
    let made = Ok(AssembledTurn::default());
    assert!(session.hear("问题", made, NOW).is_ok());
}

#[test]
fn message_of_the_service_is_taken_from_the_answer() {
    let told = |body: &str| {
        let error = bad_request_error(body);
        assert_eq!(error.code, ErrorCode::HttpBadRequest);
        assert_eq!(error.message, "请求参数错误");
        error.text("provider_message").unwrap().to_string()
    };
    assert_eq!(told(r#"{"error":{"message":"Prompt is too long"}}"#), "Prompt is too long");
    assert_eq!(told("plain refusal"), "plain refusal");
    for body in [
        r#"{"error":{"code":1}}"#,
        r#"{"error":"text"}"#,
        r#"{"error":{"message":5}}"#,
        r#"["message"]"#,
        "",
    ] {
        assert_eq!(told(body), body);
    }
    let parsed = Some(Json::object().with(
        "error",
        Json::object().with("message", Json::text("too long")),
    ));
    let error = refusal_error("raw", &parsed);
    assert_eq!(error.text("provider_message"), Some("too long"));
    assert_eq!(refusal_error("raw", &None).text("provider_message"), Some("raw"));
}
