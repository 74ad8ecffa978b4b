use core_ai_client::double::Real;
use core_ai_client::json::Json;
use core_ai_client::llm::session::{
    answer_message, arguments_value, call_arguments, tool_output, AIChatSession, AfterTurn,
};
use core_ai_client::llm::stream_turn::{StreamStep, TurnOutput};
use core_ai_client::llm::types::{
    ChatRequest, ChatResponse, ChatResponseStream, Choice, ChoiceStream, Delta, Message,
    SessionEvent, ToolCall, ToolFunctionCall, TurnStatus,
};

fn output(content: &str, tool_calls: Option<Vec<ToolCall>>) -> TurnOutput {
    let finish_reason = if tool_calls.is_some() {
        "tool_calls"
    } else {
        "stop"
    };
    TurnOutput {
        content: content.to_string(),
        reasoning: String::new(),
        tool_calls,
        finish_reason: Some(finish_reason.to_string()),
        status: TurnStatus::Completed,
        usage: None,
    }
}

fn call(name: &str, arguments: &str) -> ToolCall {
    ToolCall {
        id: Some("call_1".to_string()),
        call_type: Some("function".to_string()),
        function: ToolFunctionCall {
            name: name.to_string(),
            arguments: arguments.to_string(),
        },
        index: 0,
    }
}

fn chunk(content: Option<&str>, finish_reason: Option<&str>) -> ChatResponseStream {
    ChatResponseStream {
        id: "c".to_string(),
        object: "chat.completion.chunk".to_string(),
        choices: vec![ChoiceStream {
            index: 0,
            delta: Delta {
                role: None,
                content: content.map(str::to_string),
                reasoning_content: None,
                content_snapshot: None,
                reasoning_content_snapshot: None,
                tool_call_id: None,
                tool_calls: None,
            },
            finish_reason: finish_reason.map(str::to_string),
        }],
        created: 0,
        model: "m".to_string(),
        system_fingerprint: None,
        usage: None,
    }
}

#[test]
fn settings_reach_the_conversation() {
    let session = AIChatSession::new()
        .set_api("https://example.test", "key")
        .set_model("m")
        .set_temperature(Real {
            bits: 0.5f64.to_bits(),
        })
        .set_stream(true)
        .set_max_tokens(7)
        .set_thinking(false);
    assert_eq!(session.base_url, "https://example.test");
    assert_eq!(session.api_key, "key");
    assert_eq!(session.event_buffer, 256);
    let conversation = session.get_conversation();
    assert_eq!(conversation.model, "m");
    assert_eq!(conversation.max_tokens, Some(7));
    assert_eq!(
        conversation.temperature.map(|t| f64::from_bits(t.bits)),
        Some(0.5)
    );
    assert!(session.streams());
}

#[test]
fn sense_brings_prompts_and_tools() {
    let request = ChatRequest {
        model: "sense-model".to_string(),
        ..ChatRequest::default()
    };
    let session = AIChatSession::new().load_sense(
        Some(request),
        Some(vec!["规则一".to_string(), "规则二".to_string()]),
        Some(vec![Json::object()]),
    );
    let conversation = session.get_current_conversation();
    assert_eq!(conversation.model, "sense-model");
    let contents: Vec<_> = conversation
        .messages
        .iter()
        .map(|message| message.content.as_deref().unwrap())
        .collect();
    assert_eq!(contents, vec!["规则一", "规则二"]);
    assert!(conversation.messages.iter().all(|m| m.role == "system"));
    assert_eq!(conversation.tools.unwrap().len(), 1);
}

#[test]
fn session_waits_for_the_user_unless_there_is_something_to_answer() {
    let mut session = AIChatSession::new();
    assert!(session.should_wait_for_user());
    session.take_input("你好");
    assert!(!session.should_wait_for_user());
    session.add_message(Message::assistant(Some("好"), None, None));
    assert!(session.should_wait_for_user());
    session.add_message(Message::tool("结果", "call_1"));
    assert!(!session.should_wait_for_user());
}

#[test]
fn turn_with_calls_runs_tools_and_other_turns_end() {
    let mut session = AIChatSession::new();
    session.take_input("查一下");
    match session.begin_turn() {
        SessionEvent::TurnBegin { turn_id, node_id } => {
            assert_eq!(turn_id, 1);
            assert_eq!(node_id, 0);
        }
        _ => panic!("the beginning of a turn"),
    }
    match session.finish_turn(output("", Some(vec![call("search", "{}")]))) {
        AfterTurn::RunTools(calls) => assert_eq!(calls.len(), 1),
        AfterTurn::End(_) => panic!("the tools should run"),
    }
    match session.record_tool_result(0, Ok("找到".to_string())) {
        SessionEvent::ToolResult {
            index,
            output,
            is_error,
        } => {
            assert_eq!(index, 0);
            assert_eq!(output, "工具执行成功: 找到");
            assert!(!is_error);
        }
        _ => panic!("the result of a tool"),
    }
    match session.record_tool_result(1, Err("没有".to_string())) {
        SessionEvent::ToolResult {
            output, is_error, ..
        } => {
            assert_eq!(output, "工具执行失败: 没有");
            assert!(is_error);
        }
        _ => panic!("the result of a tool"),
    }
    let conversation = session.get_conversation();
    let last = conversation.messages.last().unwrap();
    assert_eq!(last.role, "tool");
    assert_eq!(last.tool_call_id.as_deref(), Some("t1:idx:1"));
    match session.finish_turn(output("完成", None)) {
        AfterTurn::End(status) => assert!(matches!(status, TurnStatus::Completed)),
        AfterTurn::RunTools(_) => panic!("there is nothing to run"),
    }
}

#[test]
fn stream_is_put_together() {
    let mut session = AIChatSession::new().set_stream(true);
    session.take_input("问");
    session.begin_turn();
    let mut reply = session.begin_stream();
    let (events, step) =
        session.handle_stream_line(&mut reply, "data: {}", Ok(chunk(Some("你"), None)));
    assert!(matches!(&events[..], [SessionEvent::ContentDelta(text)] if text == "你"));
    assert!(matches!(step, StreamStep::Continue));
    let (_, step) =
        session.handle_stream_line(&mut reply, "data: {}", Ok(chunk(Some("好"), Some("stop"))));
    assert!(matches!(step, StreamStep::Stop));
    let turn = reply.finish();
    assert_eq!(turn.content, "你好");
    assert_eq!(turn.finish_reason.as_deref(), Some("stop"));
    assert_eq!(answer_message(&turn).content.as_deref(), Some("你好"));
}

#[test]
fn whole_answer_is_told_with_its_calls() {
    let session = AIChatSession::new();
    let response = ChatResponse {
        id: "r".to_string(),
        object: "chat.completion".to_string(),
        created: 0,
        model: "m".to_string(),
        choices: vec![Choice {
            index: 0,
            message: Message::assistant(Some("看"), None, Some(vec![call("search", "{\"q\":1}")])),
            finish_reason: "tool_calls".to_string(),
        }],
        usage: None,
    };
    let (events, turn) = session.handle_non_stream(&response);
    assert_eq!(events.len(), 2);
    assert!(matches!(
        &events[0],
        SessionEvent::ToolCall { index: 0, name, arguments }
            if name == "search" && arguments == "{\"q\":1}"
    ));
    assert!(matches!(&events[1], SessionEvent::ContentDelta(text) if text == "看"));
    assert_eq!(turn.content, "看");
    assert_eq!(turn.tool_calls.unwrap().len(), 1);
}

#[test]
fn arguments_are_read_or_taken_as_none() {
    assert_eq!(
        call_arguments("{\"q\":1}").get("q").and_then(Json::as_i64),
        Some(1)
    );
    assert_eq!(call_arguments("{\"q\":").print(), "{}");
    assert_eq!(call_arguments("  ").print(), "{}");
    assert_eq!(arguments_value("{", None).print(), "{}");
    assert_eq!(arguments_value("3", Json::parse("3")).print(), "3");
}

#[test]
fn results_of_tools_are_told_apart() {
    let told = |result: Result<&str, &str>| {
        tool_output(&result.map(str::to_string).map_err(str::to_string))
    };
    assert_eq!(told(Ok("找到")), ("工具执行成功: 找到".to_string(), false));
    assert_eq!(told(Err("没有")), ("工具执行失败: 没有".to_string(), true));
    assert_eq!(told(Ok("")), ("工具执行成功: ".to_string(), false));
}
