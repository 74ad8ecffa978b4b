use core_ai_client::double::Real;
use core_ai_client::llm::tool::{ToolFunctionArg, ToolRegistry};
use core_ai_client::orchestrator::context::{AssembledTurn, TaskContext};
use core_ai_client::orchestrator::orchestrator::{DefaultOrchestrator, Orchestrate};
use std::sync::Arc;

fn bits_of(value: f64) -> Real {
    Real {
        bits: value.to_bits(),
    }
}

fn registry_with_tools() -> Arc<ToolRegistry> {
    let mut registry = ToolRegistry::new();
    registry.register("alpha", "测试工具 alpha", None::<Vec<ToolFunctionArg>>);
    registry.register("beta", "测试工具 beta", None::<Vec<ToolFunctionArg>>);
    Arc::new(registry)
}

#[test]
fn empty_whitelist_disables_all_tools() {
    let orch = DefaultOrchestrator::new(registry_with_tools()).with_whitelist(Some(vec![]));
    let turn = orch.assemble(&TaskContext::default()).unwrap();

    assert!(turn.tool_schemas.is_some_and(|schemas| schemas.is_empty()));
    assert!(turn.enabled_tools.is_empty());
}

#[test]
fn invalid_whitelist_disables_all_tools() {
    let orch = DefaultOrchestrator::new(registry_with_tools())
        .with_whitelist(Some(vec!["missing".to_string()]));
    let turn = orch.assemble(&TaskContext::default()).unwrap();

    assert!(turn.tool_schemas.is_some_and(|schemas| schemas.is_empty()));
    assert!(turn.enabled_tools.is_empty());
}

#[test]
fn partial_whitelist_keeps_valid_tools_only() {
    let orch = DefaultOrchestrator::new(registry_with_tools())
        .with_whitelist(Some(vec!["alpha".to_string(), "missing".to_string()]));
    let turn = orch.assemble(&TaskContext::default()).unwrap();

    assert_eq!(turn.enabled_tools, vec!["alpha".to_string()]);
    assert_eq!(turn.tool_schemas.unwrap().len(), 1);
}

#[test]
fn attributes_in_another_order_give_the_same_material() {
    let orch = DefaultOrchestrator::new(registry_with_tools());
    let mut left = TaskContext::default();
    left.attributes.insert("zeta", "3".to_string());
    left.attributes.insert("alpha", "1".to_string());
    left.attributes.insert("middle", "2".to_string());
    let mut right = TaskContext::default();
    right.attributes.insert("middle", "2".to_string());
    right.attributes.insert("zeta", "3".to_string());
    right.attributes.insert("alpha", "1".to_string());

    assert_eq!(
        orch.assemble(&left).unwrap().context_messages,
        orch.assemble(&right).unwrap().context_messages
    );
}

#[test]
fn instructions_and_material_stay_apart_and_in_order() {
    let orch = DefaultOrchestrator::new(registry_with_tools());
    let mut ctx = TaskContext::default();
    ctx.attributes.insert("entry", "参考正文".to_string());
    ctx.task_type = "proofreading".to_string();
    ctx.instruction_attributes
        .insert("z_policy", "后置策略".to_string());
    ctx.instruction_attributes
        .insert("a_policy", "前置策略".to_string());

    let turn = orch.assemble(&ctx).unwrap();
    assert_eq!(turn.context_messages, vec!["[entry]\n参考正文"]);
    assert_eq!(
        turn.instruction_messages,
        vec![
            "[Task type: proofreading]",
            "[a_policy]\n前置策略",
            "[z_policy]\n后置策略"
        ]
    );
}

#[test]
fn without_a_whitelist_all_tools_are_offered() {
    let orch = DefaultOrchestrator::new(registry_with_tools());
    let turn = orch.assemble(&TaskContext::default()).unwrap();
    assert_eq!(turn.enabled_tools, vec!["alpha", "beta"]);
    assert_eq!(turn.tool_schemas.unwrap().len(), 2);

    let bare = DefaultOrchestrator::new(Arc::new(ToolRegistry::new()));
    let turn = bare.assemble(&TaskContext::default()).unwrap();
    assert!(turn.tool_schemas.is_some_and(|schemas| schemas.is_empty()));
}

#[test]
fn flag_counts_before_the_field() {
    let orch = DefaultOrchestrator::new(registry_with_tools());
    let mut ctx = TaskContext::default();
    ctx.read_only = true;
    assert!(orch.assemble(&ctx).unwrap().read_only);
    ctx.flags.insert("read_only", false);
    assert!(!orch.assemble(&ctx).unwrap().read_only);
    ctx.read_only = false;
    ctx.flags.insert("read_only", true);
    assert!(orch.assemble(&ctx).unwrap().read_only);
}

#[test]
fn kind_of_task_sets_the_temperature() {
    let orch = DefaultOrchestrator::new(registry_with_tools());
    let mut ctx = TaskContext::default();
    assert_eq!(orch.assemble(&ctx).unwrap().temperature_override, None);
    ctx.task_type = "proofreading".to_string();
    assert_eq!(
        orch.assemble(&ctx).unwrap().temperature_override,
        Some(bits_of(0.1))
    );
}

#[test]
fn flags_and_attributes_are_looked_up() {
    let mut ctx = TaskContext::default();
    assert!(!ctx.flag("read_only"));
    assert_eq!(ctx.attr("scene"), None);
    ctx.flags.insert("read_only", true);
    ctx.attributes.insert("scene", "editor".to_string());
    assert!(ctx.flag("read_only"));
    assert_eq!(ctx.attr("scene"), Some("editor"));
    ctx.attributes.insert("scene", "reader".to_string());
    assert_eq!(ctx.attr("scene"), Some("reader"));
    assert_eq!(ctx.clone().attr("scene"), Some("reader"));
}

#[test]
fn default_turn_leaves_the_session_alone() {
    let turn = AssembledTurn::default();
    assert!(turn.tool_schemas.is_none());
    assert!(!turn.read_only);
    assert!(turn.context_messages.is_empty() && turn.instruction_messages.is_empty());
}
