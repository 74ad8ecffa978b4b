use core_ai_client::error::{ClientError, ErrorCode};
use core_ai_client::llm::stream_decoder::{snapshot_delta, stream_payload, StreamDecoder};
use core_ai_client::llm::tool_calls::{
    arguments_or_empty, synth_tool_call_id, ToolCallAccumulator,
};
use core_ai_client::llm::types::{
    ChatResponseStream, ChoiceStream, DecoderEvent, DecoderEventPayload, Delta, ToolCall,
    ToolFunctionCall, TurnStatus, Usage,
};
use std::collections::HashMap;

fn delta() -> Delta {
    Delta {
        role: None,
        content: None,
        reasoning_content: None,
        content_snapshot: None,
        reasoning_content_snapshot: None,
        tool_call_id: None,
        tool_calls: None,
    }
}

fn chunk_of(
    delta: Delta,
    finish_reason: Option<&str>,
    usage: Option<Usage>,
) -> ChatResponseStream {
    ChatResponseStream {
        id: "snapshot".to_string(),
        object: "chat.completion.chunk".to_string(),
        choices: vec![ChoiceStream {
            index: 0,
            delta,
            finish_reason: finish_reason.map(str::to_string),
        }],
        created: 0,
        model: "snapshot-model".to_string(),
        system_fingerprint: None,
        usage,
    }
}

fn snapshot_chunk(content: &str, reasoning: &str) -> ChatResponseStream {
    chunk_of(
        Delta {
            content_snapshot: Some(content.to_string()),
            reasoning_content_snapshot: Some(reasoning.to_string()),
            ..delta()
        },
        None,
        None,
    )
}

fn call(index: usize, name: &str, arguments: &str) -> ToolCall {
    ToolCall {
        id: None,
        call_type: None,
        function: ToolFunctionCall {
            name: name.to_string(),
            arguments: arguments.to_string(),
        },
        index,
    }
}

fn payload(event: &Result<DecoderEvent, ClientError>) -> &DecoderEventPayload {
    &event.as_ref().unwrap().payload
}

#[test]
fn cumulative_snapshots_are_emitted_as_deltas_and_reset_each_turn() {
    let mut decoder = StreamDecoder::default();
    decoder.begin_turn(1);

    let first = decoder.decode("data: {}", Ok(snapshot_chunk("你", "想")));
    let second = decoder.decode("data: {}", Ok(snapshot_chunk("你好", "想好了")));

    assert!(matches!(
        payload(&first[0]),
        DecoderEventPayload::AssistantContentDelta { delta } if delta == "你"
    ));
    assert!(matches!(
        payload(&first[1]),
        DecoderEventPayload::AssistantReasoningDelta { delta } if delta == "想"
    ));
    assert!(matches!(
        payload(&second[0]),
        DecoderEventPayload::AssistantContentDelta { delta } if delta == "好"
    ));
    assert!(matches!(
        payload(&second[1]),
        DecoderEventPayload::AssistantReasoningDelta { delta } if delta == "好了"
    ));

    decoder.begin_turn(2);
    let reset = decoder.decode("data: {}", Ok(snapshot_chunk("你好", "想好了")));
    assert!(matches!(
        payload(&reset[0]),
        DecoderEventPayload::AssistantContentDelta { delta } if delta == "你好"
    ));
}

#[test]
fn events_of_a_turn_are_numbered_in_sequence() {
    let mut decoder = StreamDecoder::default();
    decoder.begin_turn(4);
    let mut events = decoder.decode("data: {}", Ok(snapshot_chunk("你", "想")));
    events.append(&mut decoder.decode("data: {}", Ok(snapshot_chunk("你好", "想"))));
    let numbers: Vec<u64> = events
        .iter()
        .map(|event| event.as_ref().unwrap().event_info.seq)
        .collect();
    for pair in numbers.windows(2) {
        assert_eq!(pair[0] + 1, pair[1]);
    }
    assert!(events
        .iter()
        .all(|event| event.as_ref().unwrap().event_info.turn_id == 4));
}

#[test]
fn tool_call_begins_once() {
    let mut decoder = StreamDecoder::default();
    decoder.begin_turn(1);
    let pieces = |name: &str, arguments: &str| {
        chunk_of(
            Delta {
                tool_calls: Some(vec![call(0, name, arguments)]),
                ..delta()
            },
            None,
            None,
        )
    };
    let mut events = decoder.decode("data: {}", Ok(pieces("search", "{\"q\":")));
    events.append(&mut decoder.decode("data: {}", Ok(pieces("", "1}"))));
    let begins = events
        .iter()
        .filter(|event| matches!(payload(event), DecoderEventPayload::ToolCallStart { .. }))
        .count();
    assert_eq!(begins, 1);
    let arguments: String = events
        .iter()
        .filter_map(|event| match payload(event) {
            DecoderEventPayload::ToolCallDelta { args, .. } => Some(args.as_str()),
            _ => None,
        })
        .collect();
    assert_eq!(arguments, "{\"q\":1}");
}

#[test]
fn finish_reason_ends_the_turn_with_the_usage() {
    let usage = Usage {
        prompt_tokens: 1,
        completion_tokens: 2,
        total_tokens: 3,
        ..Usage::default()
    };
    let mut decoder = StreamDecoder::default();
    decoder.begin_turn(1);
    let last = Delta {
        content: Some("完".to_string()),
        ..delta()
    };
    let events = decoder.decode("data: {}", Ok(chunk_of(last, Some("stop"), Some(usage))));
    match payload(events.last().unwrap()) {
        DecoderEventPayload::TurnEnd {
            status,
            finish_reason,
            usage: told,
        } => {
            assert!(matches!(status, TurnStatus::Completed));
            assert_eq!(finish_reason.as_deref(), Some("stop"));
            assert_eq!(*told, Some(usage));
        }
        _ => panic!("the end of the turn"),
    }
}

#[test]
fn unreadable_lines_are_errors_and_empty_ones_are_not() {
    let mut decoder = StreamDecoder::default();
    decoder.begin_turn(1);
    let events = decoder.decode("data: {", Err("eof".to_string()));
    assert_eq!(events.len(), 1);
    assert_eq!(
        events[0].as_ref().unwrap_err().code,
        ErrorCode::LlmStreamProtocolError
    );
    assert!(decoder.decode("", Err("eof".to_string())).is_empty());
}

#[test]
fn payload_stands_behind_the_field_name() {
    assert_eq!(stream_payload("data: {\"a\":1}"), "{\"a\":1}");
    assert_eq!(stream_payload("data:[DONE]"), "[DONE]");
    assert_eq!(stream_payload("  {}  "), "{}");
}

#[test]
fn calls_are_put_together_in_order() {
    let mut collected = ToolCallAccumulator::default();
    collected.on_start(2, Some("second"));
    collected.on_delta(2, None, "{\"a\":");
    collected.on_delta(0, Some("first"), "not json");
    collected.on_delta(2, None, "1}");
    let calls = collected.build_calls(7);
    assert_eq!(calls.len(), 2);
    let names: Vec<&str> = calls
        .iter()
        .map(|call| call.function.name.as_str())
        .collect();
    assert_eq!(names, vec!["second", "first"]);
    assert_eq!(calls[0].function.arguments, "{\"a\":1}");
    assert_eq!(calls[1].function.arguments, "{}");
    assert_eq!(calls[0].id, Some(synth_tool_call_id(7, 2)));
    assert_ne!(calls[0].id, calls[1].id);
}

#[test]
fn identifiers_of_calls_name_turn_and_place() {
    assert_eq!(synth_tool_call_id(3, 4), "t3:idx:4");
    assert_ne!(synth_tool_call_id(1, 11), synth_tool_call_id(11, 1));
}

#[test]
fn unreadable_arguments_become_an_empty_object() {
    assert_eq!(arguments_or_empty("{\"a\":1}", true), "{\"a\":1}");
    assert_eq!(arguments_or_empty("{\"a\":", false), "{}");
    assert_eq!(arguments_or_empty("", false), "{}");
}

#[test]
fn pieces_of_growing_snapshots_add_up_to_the_last() {
    let mut snapshots = HashMap::new();
    let mut told = String::new();
    for snapshot in ["你", "你好", "你好", "你好，世界"] {
        told.push_str(&snapshot_delta(&mut snapshots, 0, snapshot.to_string()));
        assert_eq!(told, snapshot);
    }
    assert_eq!(snapshot_delta(&mut snapshots, 1, "你好，世界！".to_string()), "你好，世界！");
    assert_eq!(snapshot_delta(&mut snapshots, 0, "重来".to_string()), "重来");
    assert_eq!(snapshots.get(&0).map(String::as_str), Some("重来"));
}
