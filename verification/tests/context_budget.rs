use core_ai_client::double::Real;
use core_ai_client::error::ErrorCode;
use core_ai_client::json::Json;
use core_ai_client::llm::context_budget::{
    calibrated_request_tokens, context_budget, context_budget_breakdown, percent_ceil,
    EstimateSource, TrimOptions,
};
use core_ai_client::llm::rounds::{conversation_rounds, message_blocks, omitted_round_count};
use core_ai_client::llm::token_estimate::{estimate_request_tokens, RequestBaseline};
use core_ai_client::llm::trim::{
    trim_request_for_window_preserving_context, trim_request_to_budget,
    trim_request_to_budget_with_baseline,
    trim_request_to_budget_with_baseline_preserving_context,
};
use core_ai_client::llm::truncation::{
    parse_truncated_marker, truncate_text_to, truncation_target_chars, visible_text,
    visible_text_chars, MIN_KEEP_CHARS, TRUNCATED_MARKER_PREFIX,
};
use core_ai_client::llm::types::{ChatRequest, Message, ToolCall, ToolFunctionCall};

fn bits_of(value: f64) -> Real {
    Real {
        bits: value.to_bits(),
    }
}

fn request(messages: Vec<Message>) -> ChatRequest {
    ChatRequest {
        messages,
        model: "test-model".to_string(),
        ..ChatRequest::default()
    }
}

fn rounds(count: usize, chars: usize) -> Vec<Message> {
    let mut messages = vec![Message::system("系统提示")];
    for index in 1..=count {
        messages.push(Message::user(&format!("第{index}轮-{}", "问".repeat(chars))));
        messages.push(Message::assistant(
            Some(&format!("第{index}轮-{}", "答".repeat(chars))),
            None,
            None,
        ));
    }
    messages
}

fn call(id: &str, name: &str, arguments: &str, index: usize) -> ToolCall {
    ToolCall {
        id: Some(id.to_string()),
        call_type: Some("function".to_string()),
        function: ToolFunctionCall {
            name: name.to_string(),
            arguments: arguments.to_string(),
        },
        index,
    }
}

fn said(messages: &[Message]) -> Vec<(String, Option<String>)> {
    messages
        .iter()
        .map(|message| (message.role.clone(), message.content.clone()))
        .collect()
}

fn is_tool_part(message: &Message) -> bool {
    message.role == "tool"
        || message
            .tool_calls
            .as_ref()
            .is_some_and(|calls| !calls.is_empty())
}

#[test]
fn system_messages_are_always_kept() {
    let mut req = request(rounds(5, 450));
    trim_request_to_budget(&mut req, 2400, bits_of(1.0), false).unwrap();
    assert!(req
        .messages
        .iter()
        .any(|message| message.role == "system"
            && message.content.as_deref() == Some("系统提示")));
}

#[test]
fn tool_call_and_its_three_results_stay_or_go_together() {
    let calls = (1..=3)
        .map(|index| {
            call(
                &format!("call_{index}"),
                &format!("tool_{index}"),
                "{}",
                index - 1,
            )
        })
        .collect();
    let mut messages = vec![
        Message::system("系统提示"),
        Message::user(&"旧问题".repeat(100)),
        Message::assistant(None, None, Some(calls)),
        Message::tool(&"结果一".repeat(100), "call_1"),
        Message::tool(&"结果二".repeat(100), "call_2"),
        Message::tool(&"结果三".repeat(100), "call_3"),
    ];
    messages.extend(rounds(4, 300).into_iter().skip(1));
    assert!(message_blocks(&messages)
        .iter()
        .any(|block| block.len() == 4));

    let mut req = request(messages);
    trim_request_to_budget(&mut req, 1800, bits_of(1.0), false).unwrap();
    let remaining = req
        .messages
        .iter()
        .filter(|message| is_tool_part(message))
        .count();
    assert!(remaining == 0 || remaining == 4);
}

#[test]
fn latest_user_message_is_always_kept() {
    let mut messages = rounds(5, 450);
    messages.push(Message::user("必须保留的最新问题"));
    let mut req = request(messages);
    trim_request_to_budget(&mut req, 2400, bits_of(1.0), false).unwrap();
    assert!(req
        .messages
        .iter()
        .any(|message| message.content.as_deref() == Some("必须保留的最新问题")));
}

#[test]
fn only_the_earliest_rounds_are_dropped() {
    let mut req = request(rounds(6, 450));
    trim_request_to_budget(&mut req, 2400, bits_of(1.0), false).unwrap();
    let kept: Vec<_> = req
        .messages
        .iter()
        .filter(|message| message.role == "user")
        .filter_map(|message| {
            message
                .content
                .as_deref()?
                .strip_prefix('第')?
                .split_once('轮')?
                .0
                .parse::<usize>()
                .ok()
        })
        .collect();
    assert_eq!(kept, (kept[0]..=6).collect::<Vec<_>>());
}

#[test]
fn dropping_the_round_of_a_snapshot_carries_its_material_to_the_latest_user_message() {
    let reference = "[当前回合参考材料快照 v1]\n[来源：entry]\n仍然有效的固定资料";
    let mut req = request(vec![
        Message::user(&format!("{reference}\n\n[用户请求]\n第一问")),
        Message::assistant(Some("第一答"), None, None),
        Message::user("第二问"),
        Message::assistant(Some("第二答"), None, None),
        Message::user("第三问"),
        Message::assistant(Some("第三答"), None, None),
        Message::user("第四问"),
    ]);

    let report = trim_request_to_budget_with_baseline_preserving_context(
        &mut req,
        100_000,
        bits_of(1.0),
        true,
        None,
        Some(reference),
    )
    .unwrap()
    .unwrap();

    assert_eq!(report.dropped_rounds, 1);
    assert!(req.messages.iter().all(|message| {
        !message
            .content
            .as_deref()
            .is_some_and(|content| content.contains("第一问"))
    }));
    let current = req.messages.last().unwrap().content.as_deref().unwrap();
    assert!(current.starts_with(reference));
    assert!(current.ends_with("[用户请求]\n第四问"));
    assert_eq!(
        req.messages
            .iter()
            .filter_map(|message| message.content.as_deref())
            .filter(|content| content.starts_with(reference))
            .count(),
        1
    );
    assert!(calibrated_request_tokens(&req, bits_of(1.0), None) <= report.budget);
}

#[test]
fn shortening_keeps_the_number_and_order_of_messages() {
    let mut req = request(vec![
        Message::system("系统提示"),
        Message::user("调用工具"),
        Message::assistant(
            None,
            None,
            Some(vec![call("call_1", "large_result", "{\"safe\":true}", 0)]),
        ),
        Message::tool(&"x".repeat(10_000), "call_1"),
    ]);
    let roles: Vec<_> = req
        .messages
        .iter()
        .map(|message| message.role.clone())
        .collect();
    let before = calibrated_request_tokens(&req, bits_of(1.0), None);
    let report = trim_request_to_budget(&mut req, before * 9 / 10, bits_of(1.0), false)
        .unwrap()
        .unwrap();
    assert_eq!(report.truncated_messages, 1);
    assert_eq!(
        roles,
        req.messages
            .iter()
            .map(|message| message.role.clone())
            .collect::<Vec<_>>()
    );
    assert!(req.messages[3]
        .content
        .as_deref()
        .unwrap()
        .contains(TRUNCATED_MARKER_PREFIX));
    assert_eq!(
        req.messages[2].tool_calls.as_ref().unwrap()[0]
            .function
            .arguments,
        "{\"safe\":true}"
    );
}

#[test]
fn one_huge_tool_result_is_cut_down_to_the_budget() {
    let mut req = request(vec![
        Message::system("系统提示"),
        Message::user("调用工具"),
        Message::assistant(
            None,
            None,
            Some(vec![call("call_1", "large_result", "{}", 0)]),
        ),
        Message::tool(&"世".repeat(60_000), "call_1"),
    ]);

    let report = trim_request_to_budget(&mut req, 8_000, bits_of(1.0), false)
        .unwrap()
        .unwrap();
    assert!(report.after <= report.budget);
    assert_eq!(report.truncated_messages, 1);
    assert!(req.messages[3]
        .content
        .as_deref()
        .is_some_and(|text| text.contains(TRUNCATED_MARKER_PREFIX)));
}

#[test]
fn repeated_truncation_adds_up_the_removed_characters() {
    let first = truncate_text_to(&"x".repeat(4_000), 2_500).unwrap();
    let second = truncate_text_to(&first, 1_000).unwrap();
    let (_, removed, _) = parse_truncated_marker(&second).unwrap();

    assert_eq!(removed, 3_000);
    assert_eq!(visible_text_chars(&second), 1_000);
}

#[test]
fn truncation_never_goes_below_what_is_kept_at_least() {
    let truncated = truncate_text_to(&"x".repeat(1_000), 1).unwrap();
    assert_eq!(visible_text_chars(&truncated), MIN_KEEP_CHARS);

    let mut req = request(vec![
        Message::system("系统提示"),
        Message::user("调用工具"),
        Message::tool(&"x".repeat(1_000), "call_1"),
    ]);
    assert!(trim_request_to_budget(&mut req, 1, bits_of(1.0), false).is_err());
}

#[test]
fn shortening_ends_where_nothing_more_can_be_cut() {
    let at_limit = truncate_text_to(&"x".repeat(1_000), MIN_KEEP_CHARS).unwrap();
    let mut req = request(vec![
        Message::system("系统提示"),
        Message::user("调用工具"),
        Message::tool(&at_limit, "call_1"),
    ]);

    assert!(trim_request_to_budget(&mut req, 1, bits_of(1.0), false).is_err());
}

#[test]
fn baseline_uses_a_smaller_safety_reserve() {
    let mut req = request(vec![Message::user("问题")]);
    req.max_tokens = Some(2_000);

    let full = context_budget(&req, 128_000, bits_of(1.0), EstimateSource::Full);
    let baseline = context_budget(&req, 128_000, bits_of(1.0), EstimateSource::Baseline);
    assert!(baseline > full);
}

#[test]
fn note_of_omitted_rounds_stays_where_texts_are_only_shortened() {
    let mut req = request(vec![
        Message::system("系统提示"),
        Message::system("[早期 4 轮对话因超出上下文已省略]"),
        Message::user("调用工具"),
        Message::tool(&"x".repeat(10_000), "call_1"),
    ]);
    let before = calibrated_request_tokens(&req, bits_of(1.0), None);
    let report = trim_request_to_budget(&mut req, before - 100, bits_of(1.0), true)
        .unwrap()
        .unwrap();

    assert_eq!(report.dropped_rounds, 0);
    assert!(req.messages.iter().any(|message| {
        message.content.as_deref() == Some("[早期 4 轮对话因超出上下文已省略]")
    }));
}

#[test]
fn baseline_of_a_trimmed_request_still_serves_the_next_estimate() {
    let mut first = request(vec![
        Message::system("系统提示"),
        Message::user("调用工具"),
        Message::assistant(
            None,
            None,
            Some(vec![call("call_1", "large_result", "{}", 0)]),
        ),
        Message::tool(&"世".repeat(60_000), "call_1"),
    ]);
    trim_request_to_budget(&mut first, 8_000, bits_of(1.0), false).unwrap();
    let prompt_tokens = estimate_request_tokens(&first) as i64;
    let baseline = RequestBaseline::new(prompt_tokens, &first, 1).unwrap();

    let mut next = first.clone();
    next.messages.push(Message::assistant(
        Some(&"x".repeat(3_000)),
        None,
        None,
    ));
    next.messages.push(Message::user("继续"));
    assert!(baseline.extends_request(&next, Some(2), &[1, 2]));

    let before = calibrated_request_tokens(&next, bits_of(1.0), Some(&baseline));
    let report = trim_request_to_budget_with_baseline(
        &mut next,
        before - 300,
        bits_of(1.0),
        false,
        Some(&baseline),
    )
    .unwrap()
    .unwrap();
    assert_eq!(report.estimate_source, EstimateSource::Baseline);
    assert!(report.after <= report.budget);

    assert!(next.messages.iter().any(|message| {
        message.role == "system" && message.content.as_deref() == Some("系统提示")
    }));
    assert_eq!(
        next.messages.last().unwrap().content.as_deref(),
        Some("继续")
    );
    let tool_block_parts = next
        .messages
        .iter()
        .filter(|message| is_tool_part(message))
        .count();
    assert!(tool_block_parts == 0 || tool_block_parts == 2);
}

#[test]
fn distorted_usage_does_not_become_a_baseline() {
    let req = request(vec![
        Message::system("系统提示"),
        Message::user(&"正".repeat(120_000)),
    ]);
    let full = calibrated_request_tokens(&req, bits_of(1.0), None);
    assert!(full > 50_000);

    let baseline = RequestBaseline::new(50, &req, 1);
    assert!(
        baseline.is_none(),
        "a usage far from the estimate makes no baseline"
    );
    assert_eq!(
        calibrated_request_tokens(&req, bits_of(1.0), baseline.as_ref()),
        full,
        "without a baseline the whole request is estimated"
    );
}

#[test]
fn error_tells_the_whole_budget_where_nothing_can_be_trimmed() {
    let mut req = request(vec![
        Message::system(&"不可删除".repeat(3000)),
        Message::user("最新问题"),
    ]);
    let error = trim_request_to_budget(&mut req, 10, bits_of(1.0), false).unwrap_err();
    assert_eq!(error.code, ErrorCode::ContextBudgetExceeded);
    assert_eq!(error.get("budget").and_then(Json::as_i64), Some(10));
    assert!(error.get("actual").and_then(Json::as_i64).unwrap() > 10);
    match error.get("top_3_largest_messages").unwrap() {
        Json::Array(items) => assert!(!items.is_empty()),
        _ => panic!("a list of messages"),
    }
}

#[test]
fn trimming_keeps_to_the_budget_and_a_second_run_changes_nothing() {
    let mut req = request(rounds(6, 450));
    let report = trim_request_to_budget(&mut req, 2400, bits_of(1.0), false)
        .unwrap()
        .unwrap();
    assert!(report.after <= report.budget);
    let snapshot = said(&req.messages);
    assert!(trim_request_to_budget(&mut req, 2400, bits_of(1.0), false)
        .unwrap()
        .is_none());
    assert_eq!(snapshot, said(&req.messages));
}

#[test]
fn percentages_are_rounded_up() {
    assert_eq!(percent_ceil(1000, 15), 150);
    assert_eq!(percent_ceil(1001, 15), 151);
    assert_eq!(percent_ceil(0, 3), 0);
    assert_eq!(percent_ceil(1, 3), 1);
}

#[test]
fn window_is_divided_exactly() {
    let mut req = request(vec![Message::user("问题")]);
    assert_eq!(
        context_budget_breakdown(&req, 128_000, EstimateSource::Full),
        (19_200, 3_840, 104_960)
    );
    assert_eq!(
        context_budget_breakdown(&req, 128_000, EstimateSource::Baseline),
        (19_200, 1_280, 107_520)
    );
    assert_eq!(
        context_budget_breakdown(&req, 10_000, EstimateSource::Full),
        (1_500, 1_024, 7_476)
    );
    assert_eq!(
        context_budget_breakdown(&req, 10_000, EstimateSource::Baseline),
        (1_500, 512, 7_988)
    );
    req.max_tokens = Some(2_000);
    assert_eq!(
        context_budget_breakdown(&req, 128_000, EstimateSource::Full),
        (2_000, 3_840, 122_160)
    );
    req.max_tokens = Some(0);
    assert_eq!(
        context_budget_breakdown(&req, 1_000, EstimateSource::Full),
        (150, 1_024, 0)
    );
}

#[test]
fn scaled_budget_is_rounded_down() {
    let mut req = request(vec![Message::user("问题")]);
    req.max_tokens = Some(2_000);
    let source = EstimateSource::Full;
    assert_eq!(context_budget(&req, 128_000, bits_of(1.0), source), 122_160);
    assert_eq!(context_budget(&req, 128_000, bits_of(0.7), source), 85_512);
    assert_eq!(context_budget(&req, 128_001, bits_of(0.7), source), 85_512);
    assert_eq!(context_budget(&req, 128_000, bits_of(-1.0), source), 0);
    assert_eq!(context_budget(&req, 128_000, bits_of(7.0), source), 122_160);
    assert_eq!(
        context_budget(&req, 128_000, bits_of(f64::NAN), source),
        122_160
    );
}

#[test]
fn trim_options_have_their_scales() {
    assert_eq!(TrimOptions::normal().budget_scale, bits_of(1.0));
    assert!(!TrimOptions::normal().force_drop_oldest_round);
    assert_eq!(TrimOptions::overflow_retry().budget_scale, bits_of(0.7));
    assert!(TrimOptions::overflow_retry().force_drop_oldest_round);
}

#[test]
fn request_within_the_budget_stays_as_it_is() {
    let mut req = request(rounds(2, 10));
    let snapshot = said(&req.messages);
    assert!(trim_request_to_budget(&mut req, 1_000_000, bits_of(1.0), false)
        .unwrap()
        .is_none());
    assert_eq!(said(&req.messages), snapshot);
}

#[test]
fn request_that_cannot_fit_stays_as_it_is() {
    let mut req = request(rounds(5, 450));
    let snapshot = said(&req.messages);
    let error = trim_request_to_budget(&mut req, 3, bits_of(1.0), false).unwrap_err();
    assert_eq!(error.code, ErrorCode::ContextBudgetExceeded);
    assert_eq!(said(&req.messages), snapshot);
}

#[test]
fn largest_messages_are_told_from_the_largest_down() {
    let mut req = request(vec![
        Message::system(&"一".repeat(300)),
        Message::user(&"二".repeat(900)),
        Message::system(&"三".repeat(600)),
        Message::system("四"),
    ]);
    let error = trim_request_to_budget(&mut req, 1, bits_of(1.0), false).unwrap_err();
    match error.get("top_3_largest_messages").unwrap() {
        Json::Array(items) => {
            let sizes: Vec<i64> = items
                .iter()
                .map(|item| item.get("tokens").and_then(Json::as_i64).unwrap())
                .collect();
            assert_eq!(sizes.len(), 3);
            assert!(sizes[0] >= sizes[1] && sizes[1] >= sizes[2]);
            let roles: Vec<&str> = items
                .iter()
                .map(|item| item.get("role").and_then(Json::as_str).unwrap())
                .collect();
            assert_eq!(roles, vec!["user", "system", "system"]);
        }
        _ => panic!("a list of messages"),
    }
}

#[test]
fn forced_drop_leaves_a_note_with_the_number_of_rounds() {
    let mut req = request(rounds(5, 20));
    let report = trim_request_to_budget(&mut req, 1_000_000, bits_of(1.0), true)
        .unwrap()
        .unwrap();
    assert_eq!(report.dropped_rounds, 1);
    assert_eq!(report.truncated_messages, 0);
    assert_eq!(req.messages[0].content.as_deref(), Some("系统提示"));
    assert_eq!(
        req.messages[1].content.as_deref(),
        Some("[早期 1 轮对话因超出上下文已省略]")
    );
    assert_eq!(omitted_round_count(&req.messages[1]), Some(1));

    let again = trim_request_to_budget(&mut req, 1_000_000, bits_of(1.0), true)
        .unwrap()
        .unwrap();
    assert_eq!(again.dropped_rounds, 1);
    assert_eq!(omitted_round_count(&req.messages[1]), Some(2));
    assert_eq!(
        req.messages
            .iter()
            .filter(|message| omitted_round_count(message).is_some())
            .count(),
        1
    );
}

#[test]
fn last_three_rounds_are_not_dropped_unless_that_is_forced() {
    let mut req = request(rounds(3, 20));
    assert!(trim_request_to_budget(&mut req, 10, bits_of(1.0), false).is_err());
    assert_eq!(conversation_rounds(&req.messages).len(), 3);

    let report = trim_request_to_budget(&mut req, 1_000_000, bits_of(1.0), true)
        .unwrap()
        .unwrap();
    assert_eq!(report.dropped_rounds, 1);

    let mut single = request(rounds(1, 20));
    assert!(trim_request_to_budget(&mut single, 1_000_000, bits_of(1.0), true).is_err());
    assert_eq!(conversation_rounds(&single.messages).len(), 1);
}

#[test]
fn window_bounds_the_request() {
    let mut req = request(rounds(30, 400));
    let report = trim_request_for_window_preserving_context(
        &mut req,
        12_000,
        bits_of(1.0),
        None,
        TrimOptions::normal(),
        None,
    )
    .unwrap()
    .unwrap();
    assert_eq!(report.budget, 12_000 - 1_800 - 1_024);
    assert!(report.after <= report.budget);
    assert_eq!(
        calibrated_request_tokens(&req, bits_of(1.0), None),
        report.after
    );
}

#[test]
fn material_that_must_stay_is_not_shortened_but_the_text_behind_it_is() {
    let reference = format!(
        "[当前回合参考材料快照 v1]\n[来源：entry]\n{}",
        "料".repeat(800)
    );
    let asked = "问".repeat(4_000);
    let mut req = request(vec![
        Message::user(&format!("{reference}\n\n[用户请求]\n{asked}")),
        Message::assistant(Some("第一答"), None, None),
        Message::user("第二问"),
    ]);
    let before = calibrated_request_tokens(&req, bits_of(1.0), None);
    let report = trim_request_to_budget_with_baseline_preserving_context(
        &mut req,
        before - 1_000,
        bits_of(1.0),
        false,
        None,
        Some(&reference),
    )
    .unwrap()
    .unwrap();
    assert_eq!(report.truncated_messages, 1);
    let content = req.messages[0].content.as_deref().unwrap();
    assert!(content.starts_with(&format!("{reference}\n\n[用户请求]\n")));
    assert!(content.contains(TRUNCATED_MARKER_PREFIX));
}

#[test]
fn marker_is_read_back_exactly() {
    let text = format!("{}{}", "a".repeat(300), "b".repeat(300));
    let short = truncate_text_to(&text, 400).unwrap();
    let expected = format!(
        "{}…[已截断 200 字符]…{}",
        "a".repeat(300),
        "b".repeat(100)
    );
    assert_eq!(short, expected);
    assert_eq!(
        parse_truncated_marker(&short),
        Some(("a".repeat(300), 200, "b".repeat(100)))
    );
    assert_eq!(
        visible_text(&short),
        format!("{}{}", "a".repeat(300), "b".repeat(100))
    );
    assert_eq!(visible_text_chars(&short), 400);
    assert_eq!(visible_text("plain"), "plain");
    assert_eq!(parse_truncated_marker("plain"), None);
    assert_eq!(parse_truncated_marker("…[已截断 many 字符]…"), None);
    assert!(truncate_text_to("short", 1).is_none());
}

#[test]
fn target_follows_from_the_excess() {
    let text = "世".repeat(1_000);
    let estimate = core_ai_client::llm::token_estimate::estimate_text_tokens(&text);
    let per_char = estimate as f64 / 1_000.0;
    let expected = 1_000 - ((100.0 / 1.0) * 1.2 / per_char).ceil() as usize;
    assert_eq!(truncation_target_chars(&text, 100, bits_of(1.0)), expected);
    let halved = 1_000 - ((100.0 / 2.0) * 1.2 / per_char).ceil() as usize;
    assert_eq!(truncation_target_chars(&text, 100, bits_of(9.0)), halved);
    assert_eq!(
        truncation_target_chars(&text, 1_000_000, bits_of(1.0)),
        MIN_KEEP_CHARS
    );
}

#[test]
fn estimate_sources_have_their_names() {
    assert_eq!(EstimateSource::Baseline.as_str(), "baseline");
    assert_eq!(EstimateSource::Full.as_str(), "full");
    assert_eq!(EstimateSource::default(), EstimateSource::Full);
}

fn kept_rounds(messages: &[Message]) -> Vec<usize> {
    messages
        .iter()
        .filter(|message| message.role == "user")
        .filter_map(|message| {
            let text = message.content.as_deref()?.strip_prefix('第')?;
            text.split_once('轮')?.0.parse().ok()
        })
        .collect()
}

#[test]
fn exactly_as_many_first_rounds_are_gone_as_are_reported() {
    for budget in [2400, 3000, 3600] {
        let mut req = request(rounds(6, 450));
        let report = trim_request_to_budget(&mut req, budget, bits_of(1.0), false)
            .unwrap()
            .unwrap();
        let kept = kept_rounds(&req.messages);
        assert_eq!(kept, (report.dropped_rounds + 1..=6).collect::<Vec<_>>());
        assert!(kept.len() >= 3);
        assert_eq!(conversation_rounds(&req.messages).len(), kept.len());
    }
}

#[test]
fn forced_trimming_drops_a_round_and_keeps_one() {
    let mut fitting = request(rounds(2, 5));
    let report = trim_request_to_budget(&mut fitting, 100_000, bits_of(1.0), true)
        .unwrap()
        .unwrap();
    assert_eq!(report.dropped_rounds, 1);
    assert_eq!(kept_rounds(&fitting.messages), vec![2]);

    let mut single = request(rounds(1, 5));
    assert!(trim_request_to_budget(&mut single, 100_000, bits_of(1.0), true).is_err());
    assert_eq!(kept_rounds(&single.messages), vec![1]);
}
