use core_ai_client::json::Json;
use core_ai_client::llm::tool::{
    arg_i32, arg_str, schema_properties, schema_required, ToolFunctionArg, ToolFunctions,
};
use core_ai_client::text_map::TextMap;

#[test]
fn arguments_of_tools_are_looked_up() {
    let args = Json::parse(r#"{"n": 7, "name": "天空城", "big": 4294967297, "f": 1.5}"#).unwrap();
    assert_eq!(arg_i32(&args, "n"), Ok(7));
    assert_eq!(arg_i32(&args, "big"), Ok(1));
    assert_eq!(
        arg_i32(&args, "f"),
        Err("缺少或非法参数: f".to_string())
    );
    assert_eq!(
        arg_i32(&args, "missing"),
        Err("缺少或非法参数: missing".to_string())
    );
    assert_eq!(arg_str(&args, "name"), Ok("天空城"));
    assert_eq!(
        arg_str(&args, "n"),
        Err("缺少或非法参数: n".to_string())
    );
}

#[test]
fn argument_describes_itself() {
    let arg = ToolFunctionArg::new("query", "string")
        .required(true)
        .desc("要搜索的内容")
        .default(Json::text("*"));
    assert_eq!(
        arg.schema().print(),
        r#"{"default":"*","description":"要搜索的内容","type":"string"}"#
    );
    let number = ToolFunctionArg::new("n", "integer")
        .min(Json::Unsigned(1))
        .max(Json::Unsigned(9));
    assert_eq!(
        number.schema().print(),
        r#"{"maximum":9,"minimum":1,"type":"integer"}"#
    );
    let args = vec![arg, number];
    assert_eq!(schema_required(&args), vec!["query".to_string()]);
    assert!(schema_properties(&args).get("query").is_some());
    assert!(schema_properties(&args).get("n").is_some());
}

#[test]
fn tools_are_described_by_name() {
    let mut tools = ToolFunctions::new();
    assert!(tools.schemas().is_none());
    tools.register(
        "search",
        "搜索",
        Some(vec![ToolFunctionArg::new("q", "string").required(true)]),
    );
    tools.register("alpha", "前", None);
    assert_eq!(tools.tool_names(), vec!["alpha", "search"]);
    assert!(tools.has_tool("search"));
    assert!(!tools.has_tool("missing"));
    let schema = tools.schema("search").unwrap();
    assert_eq!(schema.get("type").and_then(Json::as_str), Some("function"));
    let function = schema.get("function").unwrap();
    assert_eq!(function.get("name").and_then(Json::as_str), Some("search"));
    assert_eq!(
        function.get("description").and_then(Json::as_str),
        Some("搜索")
    );
    assert_eq!(tools.schemas().unwrap().len(), 2);
    let wanted = vec!["search".to_string(), "missing".to_string()];
    assert_eq!(tools.schemas_filtered_strict(&wanted).len(), 1);
    assert!(tools.schema("missing").is_none());
}

#[test]
fn registering_again_replaces() {
    let mut tools = ToolFunctions::new();
    tools.register("search", "旧", None);
    tools.register("search", "新", None);
    assert_eq!(tools.tool_names().len(), 1);
    let function = tools.schema("search").unwrap();
    let function = function.get("function").unwrap();
    assert_eq!(
        function.get("description").and_then(Json::as_str),
        Some("新")
    );
}

#[test]
fn entries_stand_in_the_order_of_their_keys() {
    let mut map: TextMap<String> = TextMap::new();
    for key in ["zeta", "alpha", "中", "alphabet"] {
        map.insert(key, format!("<{key}>"));
    }
    let keys: Vec<&str> = (0..map.len()).map(|i| map.key(i)).collect();
    assert_eq!(keys, vec!["alpha", "alphabet", "zeta", "中"]);
    assert_eq!(map.get("中").map(String::as_str), Some("<中>"));
    assert_eq!(map.value(0), "<alpha>");
    assert!(map.get("beta").is_none());
    map.insert("alpha", "other".to_string());
    assert_eq!(map.len(), 4);
    assert_eq!(map.copied().get("alpha").map(String::as_str), Some("other"));
}
