use openab::config::{
    AttachmentsConfig, ContextRecoveryConfig, ReactionEmojis, ReactionTiming, ReactionsConfig,
    ToolDisplay,
};

#[test]
fn defaults_are_as_documented() {
    let attachments = AttachmentsConfig::default();
    assert!(!attachments.enabled);
    assert!(attachments.allowed_dirs.is_empty());
    assert_eq!(attachments.max_files, 10);
    let reactions = ReactionsConfig::default();
    assert!(reactions.enabled);
    assert_eq!(reactions.tool_display, ToolDisplay::Full);
    assert_eq!(reactions.timing, ReactionTiming::default());
    assert_eq!(ReactionEmojis::default().queued, "👀");
    assert_eq!(ToolDisplay::default(), ToolDisplay::Full);
    assert_eq!(ContextRecoveryConfig::default().history_limit, 12);
}

#[test]
fn copies_keep_their_settings() {
    let mut attachments = AttachmentsConfig::default();
    attachments.allowed_dirs.push("/out".to_string());
    assert_eq!(attachments.clone().allowed_dirs, vec!["/out"]);
    let mut reactions = ReactionsConfig::default();
    reactions.emojis.done = "x".to_string();
    assert_eq!(reactions.clone().emojis.done, "x");
}
