use core_ai_client::plugin::{
    PluginInfo, PluginKind, PluginManager, PluginScanner, SUPPORTED_ABI_VERSION,
};
use std::path::PathBuf;

fn info(id: &str, kind: PluginKind, abi_version: u32) -> PluginInfo {
    PluginInfo {
        id: id.to_string(),
        version: "1.2.3".to_string(),
        author: "a".to_string(),
        abi_version,
        name: "n".to_string(),
        description: "d".to_string(),
        kind,
    }
}

#[test]
fn description_of_a_plugin_keeps_its_place() {
    let meta = PluginScanner::build_plugin_meta(
        info("p", PluginKind::TTS, SUPPORTED_ABI_VERSION),
        PathBuf::from("/plugins/p.fcplug"),
    );
    assert_eq!(meta.id, "p");
    assert_eq!(meta.version, "1.2.3");
    assert_eq!(meta.kind, PluginKind::TTS);
    assert_eq!(meta.fcplug_path, PathBuf::from("/plugins/p.fcplug"));
}

#[test]
fn plugins_are_added_once_and_found_by_kind() {
    let mut manager = PluginManager::new();
    let path = PathBuf::from("/plugins/p.fcplug");
    assert!(manager
        .add_plugin(info("p", PluginKind::LLM, SUPPORTED_ABI_VERSION), path.clone())
        .is_ok());
    assert!(manager
        .add_plugin(info("p", PluginKind::Image, SUPPORTED_ABI_VERSION), path.clone())
        .is_err());
    assert!(manager
        .add_plugin(info("q", PluginKind::LLM, SUPPORTED_ABI_VERSION + 1), path.clone())
        .is_err());
    assert_eq!(manager.find_plugin("p", PluginKind::LLM).unwrap().id, "p");
    assert!(manager.find_plugin("p", PluginKind::Image).is_err());
    assert!(manager.find_plugin("q", PluginKind::LLM).is_err());
}

#[test]
fn first_of_two_plugins_with_one_name_stays() {
    let mut manager = PluginManager::default();
    let first = PathBuf::from("/plugins/a.fcplug");
    let second = PathBuf::from("/plugins/b.fcplug");
    manager.take_found(
        info("p", PluginKind::LLM, SUPPORTED_ABI_VERSION),
        first.clone(),
    );
    let note = manager.take_found(info("p", PluginKind::LLM, SUPPORTED_ABI_VERSION), second);
    assert!(note.is_some());
    assert_eq!(
        manager
            .find_plugin("p", PluginKind::LLM)
            .unwrap()
            .fcplug_path,
        first
    );
}
