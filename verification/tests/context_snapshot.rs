use core_ai_client::digest::sha256_hex;
use core_ai_client::llm::context_snapshot::{
    compile_reference_message, compile_user_message, render_reference, ContextSnapshotPlacement,
    PreparedContextSnapshot,
};
use core_ai_client::llm::types::Message;

#[test]
fn digest_of_a_snapshot_keeps_order_and_text() {
    let left = PreparedContextSnapshot::from_messages(&["A".into(), "B".into()]);
    let right = PreparedContextSnapshot::from_messages(&["B".into(), "A".into()]);
    assert_ne!(left.content_hash, right.content_hash);
    assert_eq!(left.sources[0].content, "A");
    assert_eq!(left.sources[1].content, "B");
}

#[test]
fn empty_snapshot_says_that_nothing_is_valid_any_more() {
    let snapshot = PreparedContextSnapshot::from_messages(&[]).bind(7);
    let message = compile_user_message(Message::user("继续"), &snapshot);
    let content = message.content.unwrap();
    assert!(content.contains("没有有效参考材料"));
    assert!(content.ends_with("[用户请求]\n继续"));
}

#[test]
fn snapshot_is_bound_to_its_message() {
    let prepared = PreparedContextSnapshot::from_messages(&["[entry]\n正文".into()]);
    let hash = prepared.content_hash.clone();
    let snapshot = prepared.bind(9);
    assert_eq!(snapshot.owner_node_id, 9);
    assert_eq!(snapshot.content_hash, hash);
    assert!(PreparedContextSnapshot::from_messages(&["[entry]\n正文".into()]).matches(&snapshot));
    assert!(!PreparedContextSnapshot::from_messages(&["[entry]\n别的".into()]).matches(&snapshot));
}

#[test]
fn reference_stands_in_front_of_what_the_user_said() {
    let snapshot = PreparedContextSnapshot::from_messages(&["[entry]\n正文".into()]).bind(1);
    let reference = render_reference(&snapshot);
    assert!(reference.starts_with("[当前回合参考材料快照 v1]"));
    assert!(reference.contains("正文"));
    let message = compile_user_message(Message::user("问"), &snapshot);
    assert_eq!(message.role, "user");
    assert_eq!(
        message.content,
        Some(format!("{reference}\n\n[用户请求]\n问"))
    );
    assert_eq!(
        compile_reference_message(&snapshot).content,
        Some(reference)
    );
}

#[test]
fn material_stands_with_the_user_message() {
    assert!(ContextSnapshotPlacement::default().is_user_message());
}

#[test]
fn digests_are_those_of_sha256() {
    assert_eq!(
        sha256_hex(b""),
        "e3b0c44298fc1c149afbf4c8996fb92427ae41e4649b934ca495991b7852b855"
    );
    assert_eq!(
        sha256_hex(b"abc"),
        "ba7816bf8f01cfea414140de5dae2223b00361a396177a9cb410ff61f20015ad"
    );
}

#[test]
fn digest_of_material_frames_every_part() {
    let joined = PreparedContextSnapshot::from_messages(&["AB".into()]);
    let apart = PreparedContextSnapshot::from_messages(&["A".into(), "B".into()]);
    assert_ne!(joined.content_hash, apart.content_hash);
    assert_eq!(joined.content_hash.len(), 64);
}
