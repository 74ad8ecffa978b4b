use core_ai_client::double::Real;
use core_ai_client::json::Json;
use core_ai_client::llm::token_estimate::{
    estimate_message_tokens, estimate_messages_tokens, estimate_request_tokens,
    estimate_text_tokens, estimate_with_factor, fingerprint_of, is_cjk, request_fingerprint,
    tools_fingerprint, RequestBaseline, TokenCalibrator,
};
use core_ai_client::llm::types::{ChatRequest, Message, ToolCall, ToolFunctionCall};
use std::collections::hash_map::DefaultHasher;
use std::hash::{Hash, Hasher};

fn bits_of(value: f64) -> Real {
    Real {
        bits: value.to_bits(),
    }
}

fn number(value: Real) -> f64 {
    f64::from_bits(value.bits)
}

fn assert_relative_error(estimated: u64, actual: u64, max_error: f64) {
    let error = estimated.abs_diff(actual) as f64 / actual as f64;
    assert!(
        error < max_error,
        "estimated={estimated}, actual={actual}, error={error}"
    );
}

fn request(messages: Vec<Message>) -> ChatRequest {
    ChatRequest {
        messages,
        model: "test-model".to_string(),
        ..ChatRequest::default()
    }
}

#[test]
fn language_baselines_are_within_cold_start_tolerance() {
    assert_relative_error(estimate_text_tokens(&"世".repeat(150)), 100, 0.15);
    assert_relative_error(estimate_text_tokens(&"a".repeat(380)), 100, 0.15);
    let mixed = format!("{}{}", "世".repeat(75), "a".repeat(190));
    assert_relative_error(estimate_text_tokens(&mixed), 100, 0.15);
}

#[test]
fn calibration_converges_within_five_observations() {
    let mut calibrator = TokenCalibrator::default();
    for _ in 0..5 {
        calibrator.observe(110, 100);
    }
    assert_relative_error(calibrator.estimate(100), 110, 0.05);
}

#[test]
fn tool_calls_increase_message_estimate() {
    let plain = Message::assistant(Some("完成"), None, None);
    let with_call = Message::assistant(
        Some("完成"),
        None,
        Some(vec![ToolCall {
            id: Some("call-1".to_string()),
            call_type: Some("function".to_string()),
            function: ToolFunctionCall {
                name: "search_entries".to_string(),
                arguments: r#"{"query":"天空城"}"#.to_string(),
            },
            index: 0,
        }]),
    );

    assert!(estimate_messages_tokens(&[with_call]) > estimate_messages_tokens(&[plain]));
}

#[test]
fn tool_schemas_increase_request_estimate() {
    let without_tools = request(vec![Message::user("测试消息")]);
    let mut with_tools = without_tools.clone();
    with_tools.tools = Some(vec![Json::parse(
        r#"{
            "type": "function",
            "function": {
                "name": "search_entries",
                "description": "搜索词条",
                "parameters": {"type": "object", "properties": {"query": {"type": "string"}}}
            }
        }"#,
    )
    .unwrap()]);

    assert!(estimate_request_tokens(&with_tools) > estimate_request_tokens(&without_tools));
}

#[test]
fn unusual_text_inputs_do_not_panic() {
    assert_eq!(estimate_text_tokens(""), 0);
    assert_eq!(estimate_text_tokens("   "), 0);
    assert!(estimate_text_tokens("😀🚀✨") > 0);
    assert!(estimate_text_tokens(&"x".repeat(100_000)) > 0);
}

#[test]
fn baseline_serves_where_the_request_goes_on() {
    let first = request(vec![Message::system("系统"), Message::user("第一问")]);
    let prompt_tokens = estimate_request_tokens(&first) as i64;
    let baseline = RequestBaseline::new(prompt_tokens, &first, 1).unwrap();
    let mut next = first.clone();
    next.messages
        .push(Message::assistant(Some("第一答"), None, None));

    assert!(baseline.extends_request(&next, Some(2), &[1, 2]));
    assert_eq!(
        baseline.estimate(&next, bits_of(1.0)),
        prompt_tokens as u64 + estimate_messages_tokens(&next.messages[2..])
    );
}

#[test]
fn usage_far_from_the_estimate_makes_no_baseline() {
    let request = request(vec![Message::user(&"正".repeat(1_000))]);
    let base_estimate = estimate_request_tokens(&request) as i64;

    assert!(RequestBaseline::new(base_estimate, &request, 1).is_some());
    assert!(RequestBaseline::new(base_estimate * 6 / 10, &request, 1).is_some());
    assert!(RequestBaseline::new(base_estimate * 18 / 10, &request, 1).is_some());

    assert!(RequestBaseline::new(base_estimate / 3, &request, 1).is_none());
    assert!(RequestBaseline::new(base_estimate * 3, &request, 1).is_none());
    assert!(RequestBaseline::new(0, &request, 1).is_none());
}

#[test]
fn checkout_and_changed_tools_end_a_baseline() {
    let mut first = request(vec![Message::user("第一问")]);
    first.tools = Some(vec![Json::object().with("name", Json::text("search"))]);
    let baseline =
        RequestBaseline::new(estimate_request_tokens(&first) as i64, &first, 1).unwrap();
    let mut next = first.clone();
    next.messages
        .push(Message::assistant(Some("第一答"), None, None));

    assert!(!baseline.extends_request(&next, Some(3), &[2, 3]));
    next.tools = Some(vec![Json::object().with("name", Json::text("write"))]);
    assert!(!baseline.extends_request(&next, Some(2), &[1, 2]));
}

#[test]
fn texts_are_counted_exactly() {
    assert_eq!(estimate_text_tokens(&"世".repeat(15)), 10);
    assert_eq!(estimate_text_tokens(&"a".repeat(38)), 10);
    assert_eq!(estimate_text_tokens("a"), 1);
    assert_eq!(estimate_text_tokens("世"), 1);
    assert_eq!(estimate_text_tokens(" \n\t"), 0);
}

#[test]
fn message_has_a_fixed_overhead() {
    assert_eq!(
        estimate_message_tokens(&Message::user("世")),
        4 + estimate_text_tokens("世")
    );
    assert_eq!(
        estimate_messages_tokens(&[Message::user("世"), Message::user("世")]),
        2 * estimate_message_tokens(&Message::user("世"))
    );
}

#[test]
fn factor_scales_and_rounds_up() {
    assert_eq!(estimate_with_factor(100, bits_of(1.0)), 100);
    assert_eq!(estimate_with_factor(100, bits_of(1.5)), 150);
    assert_eq!(estimate_with_factor(101, bits_of(1.5)), 152);
    assert_eq!(estimate_with_factor(100, bits_of(0.1)), 50);
    assert_eq!(estimate_with_factor(100, bits_of(9.0)), 200);
    assert_eq!(estimate_with_factor(100, bits_of(f64::NAN)), 100);
    assert_eq!(estimate_with_factor(100, bits_of(f64::INFINITY)), 100);
    for (n, f) in [(7u64, 1.1), (333, 0.77), (123_456_789, 1.9), (3, 0.5)] {
        assert_eq!(
            estimate_with_factor(n, bits_of(f)),
            (n as f64 * f).ceil() as u64
        );
    }
}

#[test]
fn observation_moves_the_factor_by_a_fifth() {
    let mut calibrator = TokenCalibrator::new(Some(bits_of(1.0)));
    let observed = number(calibrator.observe(150, 100).unwrap());
    assert_eq!(observed, 0.8 * 1.0 + (1.0 - 0.8) * 1.5);
    assert_eq!(number(calibrator.factor()), observed);
    assert!(calibrator.observe(0, 100).is_none());
    assert!(calibrator.observe(100, 0).is_none());
    assert_eq!(number(calibrator.factor()), observed);
    assert_eq!(number(TokenCalibrator::new(None).factor()), 1.0);
    assert_eq!(number(TokenCalibrator::new(Some(bits_of(7.0))).factor()), 2.0);
    assert_eq!(number(TokenCalibrator::new(Some(bits_of(-7.0))).factor()), 0.5);
}

#[test]
fn characters_of_east_asia_are_known() {
    for c in ['世', 'あ', '한', '，', '\u{3000}', '\u{2fa1f}'] {
        assert!(is_cjk(c));
    }
    for c in ['a', 'é', '😀', '\u{2fff}', '\u{2fa20}'] {
        assert!(!is_cjk(c));
    }
}

#[test]
fn fingerprints_follow_from_the_bytes() {
    for bytes in [&b""[..], &b"abc"[..], "天空城".as_bytes()] {
        let mut hasher = DefaultHasher::new();
        bytes.hash(&mut hasher);
        assert_eq!(fingerprint_of(bytes), hasher.finish());
    }
    assert_ne!(request_fingerprint(b"abc"), request_fingerprint(b"abd"));

    let plain = request(vec![Message::user("问")]);
    let mut tooled = plain.clone();
    tooled.tools = Some(vec![Json::object().with("name", Json::text("search"))]);
    assert_ne!(tools_fingerprint(&plain), tools_fingerprint(&tooled));
    assert_eq!(tools_fingerprint(&plain), tools_fingerprint(&plain.clone()));
}

#[test]
fn estimate_does_not_fall_when_text_is_appended() {
    let mut text = String::new();
    let mut previous = 0;
    for c in "世界 hello，\n  再见 world 123 ".chars().cycle().take(400) {
        text.push(c);
        let tokens = estimate_text_tokens(&text);
        assert!(tokens >= previous);
        previous = tokens;
    }
}

#[test]
fn estimate_does_not_depend_on_the_order_of_characters() {
    let text = "世界 hello，再见 world";
    let reversed: String = text.chars().rev().collect();
    let mut sorted: Vec<char> = text.chars().collect();
    sorted.sort_unstable();
    let sorted: String = sorted.into_iter().collect();
    assert_eq!(estimate_text_tokens(text), estimate_text_tokens(&reversed));
    assert_eq!(estimate_text_tokens(text), estimate_text_tokens(&sorted));
}

#[test]
fn only_blank_text_costs_nothing() {
    for blank in ["", " ", "\n\t", "\u{3000}"] {
        assert_eq!(estimate_text_tokens(blank), 0);
    }
    for text in ["a", " a ", "世", ".", "\n0"] {
        assert!(estimate_text_tokens(text) > 0);
    }
}
