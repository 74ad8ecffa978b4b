use core_ai_client::double::{Double, Real};
use core_ai_client::error::{ClientError, ErrorCode};
use core_ai_client::json::Json;
use core_ai_client::text::{
    begins_with, blank, decimal_text, has_text, lower_text, parse_usize, split_first, strip_prefix,
    trim_text,
};
use serde_json::Value;

#[test]
fn json_values_survive_both_ways() {
    let text = r#"{"a":[1,-2,1.5,true,null,"天"],"b":{"c":"d"}}"#;
    let value: Value = serde_json::from_str(text).unwrap();
    let json = Json::of_value(&value);
    assert_eq!(json.to_value(), value);
    assert_eq!(json.print(), text);
    assert_eq!(json.clone().print(), text);
    assert_eq!(Json::parse(text).unwrap().print(), text);
    assert!(Json::parse("{").is_none());
}

#[test]
fn json_members_are_looked_up_and_replaced() {
    let json = Json::object()
        .with("b", Json::text("x"))
        .with("a", Json::Unsigned(7))
        .with("b", Json::text("y"));
    assert_eq!(json.print(), r#"{"a":7,"b":"y"}"#);
    assert_eq!(json.get("a").and_then(Json::as_i64), Some(7));
    assert_eq!(json.get("b").and_then(Json::as_str), Some("y"));
    assert!(json.get("c").is_none());
    assert_eq!(Json::Unsigned(u64::MAX).as_i64(), None);
    assert_eq!(Json::text("7").as_i64(), None);
}

#[test]
fn errors_carry_details() {
    let error = ClientError::new(ErrorCode::Internal, "失败")
        .with_kv("reason", Json::text("网络"))
        .with_kv("tries", Json::Unsigned(2));
    assert_eq!(error.code, ErrorCode::Internal);
    assert_eq!(error.message, "失败");
    assert_eq!(error.text("reason"), Some("网络"));
    assert_eq!(error.text("tries"), None);
    assert_eq!(error.get("tries").and_then(Json::as_i64), Some(2));
    assert!(error.get("missing").is_none());
    assert_eq!(error.clone().text("reason"), Some("网络"));
}

fn double(x: f64) -> Double {
    let wide = Double::from_u64(u64::MAX);
    Real { bits: x.to_bits() }.clamp(Double::from_u64(0), wide, wide)
}

fn number(x: Double) -> f64 {
    f64::from_bits(x.to_real().bits)
}

#[test]
fn doubles_compute_as_the_machine_does() {
    let values = [
        1.0, 1.5, 3.8, 0.2, 0.7, 1.2, 123_456.789, 9.0e15, 1.0e-3, 0.1,
    ];
    for a in values {
        for b in values {
            assert_eq!(number(double(a).mul(double(b))), a * b);
            assert_eq!(number(double(a).div(double(b))), a / b);
            assert_eq!(number(double(a).add(double(b))), a + b);
            assert_eq!(double(a).le(double(b)), a <= b);
        }
        assert_eq!(double(a).ceil(), a.ceil() as u64);
        assert_eq!(double(a).floor(), a.floor() as u64);
    }
    for n in [0, 1, 1 << 53, (1 << 53) + 1, u64::MAX] {
        assert_eq!(Double::from_u64(n).floor(), n as f64 as u64);
    }
}

#[test]
fn texts_are_cut_and_searched() {
    assert!(blank(" \u{3000}\n"));
    assert!(!blank(" a "));
    assert_eq!(trim_text("  天 空 "), "天 空");
    assert_eq!(
        split_first("a::b::c", "::"),
        Some(("a".to_string(), "b::c".to_string()))
    );
    assert_eq!(split_first("abc", "::"), None);
    assert_eq!(strip_prefix("data: x", "data:"), Some(" x".to_string()));
    assert_eq!(strip_prefix("x", "data:"), None);
    assert!(begins_with("天空城", "天空"));
    assert!(has_text("max context length", "context"));
    assert!(!has_text("short", "longer than that"));
    assert_eq!(lower_text("Too MANY Tokens 天"), "too many tokens 天");
    assert_eq!(decimal_text(0), "0");
    assert_eq!(decimal_text(u64::MAX), u64::MAX.to_string());
    for text in ["0", "17", "+5", "007", "", "+", "-1", "1a", "99999999999999999999999"] {
        assert_eq!(parse_usize(text), text.parse::<usize>().ok());
    }
}

#[test]
fn texts_are_the_same_character_by_character() {
    use_same("", "", true);
    use_same("你好", "你好", true);
    use_same("你好", "你", false);
    use_same("你", "你好", false);
    use_same("abc", "abd", false);
    use_same("", "a", false);
}

fn use_same(a: &str, b: &str, same: bool) {
    assert_eq!(core_ai_client::text::same_text(a, b), same);
}
