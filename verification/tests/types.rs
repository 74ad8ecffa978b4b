use core_ai_client::json::Json;
use core_ai_client::llm::types::{
    is_one_request, is_zero_u32, max_known, sum_known, ChatRequest, Message, Usage,
};

fn usage(text: &str) -> Usage {
    Usage::deserialize(&Json::parse(text).unwrap()).unwrap()
}

#[test]
fn usage_of_three_fields_leaves_the_cache_unknown() {
    let usage = usage(r#"{"prompt_tokens":10,"completion_tokens":20,"total_tokens":30}"#);

    assert_eq!(usage.prompt_tokens, 10);
    assert_eq!(usage.completion_tokens, 20);
    assert_eq!(usage.total_tokens, 30);
    assert_eq!(usage.cached_prompt_tokens, None);
    assert_eq!(usage.cache_usage_known_requests, 0);
    assert_eq!(usage.request_count, 1);
}

#[test]
fn usage_with_nested_cache_fields_does_not_count_them_twice() {
    let usage = usage(
        r#"{
            "prompt_tokens":100,
            "completion_tokens":20,
            "total_tokens":120,
            "prompt_tokens_details":{"cached_tokens":80}
        }"#,
    );

    assert_eq!(usage.prompt_tokens, 100);
    assert_eq!(usage.cached_prompt_tokens, Some(80));
    assert_eq!(usage.total_tokens, 120);
    assert_eq!(usage.cache_usage_known_requests, 1);
}

#[test]
fn usage_with_hits_and_misses_or_cache_reads_is_brought_to_one_form() {
    let deepseek = usage(
        r#"{
            "prompt_cache_hit_tokens":70,
            "prompt_cache_miss_tokens":30,
            "completion_tokens":5
        }"#,
    );
    assert_eq!(deepseek.prompt_tokens, 100);
    assert_eq!(deepseek.cached_prompt_tokens, Some(70));
    assert_eq!(deepseek.total_tokens, 105);

    let anthropic = usage(
        r#"{
            "input_tokens":10,
            "output_tokens":5,
            "cache_read_input_tokens":70,
            "cache_creation_input_tokens":20
        }"#,
    );
    assert_eq!(anthropic.prompt_tokens, 100);
    assert_eq!(anthropic.cached_prompt_tokens, Some(70));
    assert_eq!(anthropic.cache_creation_prompt_tokens, Some(20));
    assert_eq!(anthropic.total_tokens, 105);
}

#[test]
fn usage_updates_of_a_request_replace_and_requests_of_a_turn_add_up() {
    let mut request = Usage {
        prompt_tokens: 10,
        completion_tokens: 0,
        total_tokens: 10,
        cached_prompt_tokens: Some(4),
        cache_creation_prompt_tokens: None,
        request_count: 1,
        cache_usage_known_requests: 1,
        cache_creation_usage_known_requests: 0,
    };
    request.merge_request_update(Usage {
        prompt_tokens: 12,
        completion_tokens: 3,
        total_tokens: 15,
        cached_prompt_tokens: Some(5),
        ..Usage::default()
    });
    assert_eq!(request.total_tokens, 15);
    assert_eq!(request.cached_prompt_tokens, Some(5));

    let mut turn = request.clone();
    turn.accumulate_request(&Usage {
        prompt_tokens: 20,
        completion_tokens: 5,
        total_tokens: 25,
        ..Usage::default()
    });
    assert_eq!(turn.total_tokens, 40);
    assert_eq!(turn.request_count, 2);
    assert_eq!(turn.cached_prompt_tokens, Some(5));
    assert_eq!(turn.cache_usage_known_requests, 1);
}

#[test]
fn usage_that_is_no_object_is_refused() {
    assert_eq!(
        Usage::deserialize(&Json::text("many")),
        Err("usage 必须是 JSON 对象".to_string())
    );
}

#[test]
fn counts_that_make_no_sense_are_left_out() {
    let odd = usage(r#"{"prompt_tokens":"ten","completion_tokens":-3,"total_tokens":7}"#);
    assert_eq!(odd.prompt_tokens, 0);
    assert_eq!(odd.completion_tokens, 0);
    assert_eq!(odd.total_tokens, 7);
}

#[test]
fn adding_up_two_requests_does_not_depend_on_their_order() {
    let a = usage(r#"{"prompt_tokens":10,"completion_tokens":20,"total_tokens":30}"#);
    let b = usage(
        r#"{"prompt_tokens":100,"completion_tokens":2,"total_tokens":102,
            "prompt_tokens_details":{"cached_tokens":80}}"#,
    );
    let mut left = a;
    left.accumulate_request(&b);
    let mut right = b;
    right.accumulate_request(&a);
    assert_eq!(left, right);
    assert_eq!(left.cached_prompt_tokens, Some(80));
    assert!(left.cache_usage_known_requests <= left.request_count);
}

#[test]
fn unknown_counts_give_way_to_known_ones() {
    assert_eq!(max_known(None, None), None);
    assert_eq!(max_known(Some(3), None), Some(3));
    assert_eq!(max_known(None, Some(4)), Some(4));
    assert_eq!(max_known(Some(3), Some(4)), Some(4));
    assert_eq!(sum_known(None, None), None);
    assert_eq!(sum_known(Some(3), None), Some(3));
    assert_eq!(sum_known(Some(3), Some(4)), Some(7));
    assert_eq!(sum_known(Some(i64::MAX), Some(4)), Some(i64::MAX));
    assert!(is_one_request(&1) && !is_one_request(&2));
    assert!(is_zero_u32(&0) && !is_zero_u32(&1));
}

#[test]
fn messages_have_their_roles() {
    assert_eq!(Message::system("a").role, "system");
    assert_eq!(Message::user("a").content.as_deref(), Some("a"));
    let tool = Message::tool("out", "call_1");
    assert_eq!(tool.role, "tool");
    assert_eq!(tool.tool_call_id.as_deref(), Some("call_1"));
    let answer = Message::assistant(None, Some("想"), None);
    assert_eq!(answer.role, "assistant");
    assert_eq!(answer.content, None);
    assert_eq!(answer.reasoning_content.as_deref(), Some("想"));
}

#[test]
fn blank_request_lets_the_model_choose_tools() {
    let request = ChatRequest::default();
    assert_eq!(request.tool_choice.as_deref(), Some("auto"));
    assert!(request.messages.is_empty());
}
