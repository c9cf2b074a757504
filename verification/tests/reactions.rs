use openab::adapter::{ChannelRef, MessageRef};
use openab::config::{ActivityHeartbeatConfig, ReactionEmojis, ReactionTiming};
use openab::reactions::{
    classify_lowered, classify_tool, mood_face, ActivityHeartbeatManager, ReactionStep,
    StatusReactionController,
};
use openab::time::Duration;

fn channel() -> ChannelRef {
    ChannelRef {
        platform: "mock".into(),
        channel_id: "C".into(),
        thread_id: Some("T".into()),
        parent_id: None,
        origin_event_id: None,
    }
}

fn msg(id: &str) -> MessageRef {
    MessageRef { channel: channel(), message_id: id.into() }
}

fn controller(enabled: bool) -> StatusReactionController {
    StatusReactionController::new(
        enabled,
        msg("old"),
        ReactionEmojis::default(),
        ReactionTiming::default(),
    )
}

fn shown(steps: Vec<ReactionStep>) -> Vec<(String, String, String)> {
    let mut out = Vec::new();
    for step in steps {
        match step {
            ReactionStep::Add { message, emoji } => {
                out.push(("add".to_string(), message.message_id, emoji))
            }
            ReactionStep::Remove { message, emoji } => {
                out.push(("remove".to_string(), message.message_id, emoji))
            }
            _ => {}
        }
    }
    out
}

fn event(kind: &str, id: &str, emoji: &str) -> (String, String, String) {
    (kind.to_string(), id.to_string(), emoji.to_string())
}

#[test]
fn move_to_message_transfers_current_reaction() {
    let mut ctrl = controller(true);
    let mut events = shown(ctrl.set_queued());
    events.extend(shown(ctrl.move_to_message(msg("new"))));
    assert_eq!(
        events,
        vec![
            ("add".to_string(), "old".to_string(), "👀".to_string()),
            ("add".to_string(), "new".to_string(), "👀".to_string()),
            ("remove".to_string(), "old".to_string(), "👀".to_string()),
        ]
    );
}

#[test]
fn activity_heartbeat_is_shared_and_stops_after_last_turn() {
    let mut manager = ActivityHeartbeatManager::with_interval(
        &ActivityHeartbeatConfig {
            enabled: true,
            channel: "1530491625351151616".into(),
            label: "takodex".into(),
        },
        true,
        Duration::from_millis(100),
    );

    let beat = manager.begin_turn().unwrap();
    assert_eq!(beat.channel.channel_id, "1530491625351151616");
    assert_eq!(beat.channel.platform, "discord");
    assert_eq!(beat.content, "[takodex] 作業中: ACPセッション処理中");
    assert_eq!(beat.interval, Duration::from_millis(100));
    assert!(manager.begin_turn().is_none());
    assert_eq!(manager.turns(), 2);
    assert!(!manager.end_turn());
    let beat = manager.on_interval().unwrap();
    assert_eq!(beat.content, "[takodex] 作業中: ACPセッション処理中");
    assert!(manager.end_turn());
    assert!(manager.on_interval().is_none());
    assert!(!manager.end_turn());
    assert!(manager.begin_turn().is_some());
}

#[test]
fn heartbeat_needs_an_adapter_and_a_setting() {
    let config = |enabled| ActivityHeartbeatConfig {
        enabled,
        channel: "c".into(),
        label: "l".into(),
    };
    assert!(ActivityHeartbeatManager::new(&config(true), false).begin_turn().is_none());
    assert!(ActivityHeartbeatManager::new(&config(false), true).begin_turn().is_none());
    let beat = ActivityHeartbeatManager::new(&config(true), true).begin_turn().unwrap();
    assert_eq!(beat.interval, Duration::from_secs(600));
}

#[test]
fn tools_are_classified_by_name() {
    let emojis = ReactionEmojis::default();
    assert_eq!(classify_tool("Web_Search", &emojis), "⚡");
    assert_eq!(classify_tool("Bash(ls)", &emojis), "👨‍💻");
    assert_eq!(classify_tool("browser_read", &emojis), "⚡");
    assert_eq!(classify_tool("Think", &emojis), "🔥");
    assert_eq!(classify_lowered("web-fetch", &emojis), "⚡");
    assert_eq!(classify_lowered("Bash", &emojis), "🔥");
}

#[test]
fn emoji_takes_the_place_of_the_one_before() {
    let mut ctrl = controller(true);
    ctrl.set_queued();
    let steps = ctrl.set_thinking();
    assert!(matches!(&steps[0], ReactionStep::CancelDebounce));
    assert!(matches!(
        &steps[1],
        ReactionStep::StartDebounce { ms: 700, emoji } if emoji == "🤔"
    ));
    assert!(matches!(&steps[2], ReactionStep::CancelStall));
    assert!(matches!(
        &steps[3],
        ReactionStep::StartStall { soft_ms: 10_000, hard_ms: 30_000 }
    ));
    assert_eq!(steps.len(), 4);
    assert_eq!(
        shown(ctrl.on_debounced("🤔")),
        vec![event("add", "old", "🤔"), event("remove", "old", "👀")]
    );
    assert_eq!(
        shown(ctrl.on_stall_soft()),
        vec![event("add", "old", "🥱"), event("remove", "old", "🤔")]
    );
    assert_eq!(
        shown(ctrl.on_stall_hard()),
        vec![event("add", "old", "😨"), event("remove", "old", "🥱")]
    );
    assert_eq!(
        shown(ctrl.set_done_with(1)),
        vec![event("add", "old", "🆗"), event("remove", "old", "😨"), event("add", "old", "😎")]
    );
}

#[test]
fn finished_turn_changes_no_more() {
    let mut ctrl = controller(true);
    ctrl.set_queued();
    assert_eq!(
        shown(ctrl.set_error()),
        vec![event("add", "old", "😱"), event("remove", "old", "👀")]
    );
    assert!(shown(ctrl.set_queued()).is_empty());
    assert!(shown(ctrl.on_debounced("🤔")).is_empty());
    assert!(shown(ctrl.on_stall_hard()).is_empty());
    assert!(shown(ctrl.move_to_message(msg("new"))).is_empty());
    assert_eq!(shown(ctrl.clear()), vec![event("remove", "new", "😱")]);
    assert!(shown(ctrl.clear()).is_empty());
}

#[test]
fn queued_emoji_of_a_batch_is_taken_over() {
    let mut ctrl = controller(true);
    ctrl.track_existing_queued();
    assert!(shown(ctrl.set_queued()).is_empty());
    assert_eq!(
        shown(ctrl.on_debounced("🤔")),
        vec![event("add", "old", "🤔"), event("remove", "old", "👀")]
    );
}

#[test]
fn disabled_controller_does_nothing() {
    let mut ctrl = controller(false);
    assert!(ctrl.set_queued().is_empty());
    assert!(ctrl.set_thinking().is_empty());
    assert!(ctrl.set_tool("bash").is_empty());
    assert!(ctrl.set_done().is_empty());
    assert!(ctrl.set_error().is_empty());
    assert!(ctrl.clear().is_empty());
    assert!(ctrl.move_to_message(msg("new")).is_empty());
}

#[test]
fn a_face_joins_a_done_turn() {
    let mut ctrl = controller(true);
    let events = shown(ctrl.set_done());
    assert_eq!(events[0], event("add", "old", "🆗"));
    assert_eq!(events.len(), 2);
    assert!((0..8).any(|n| mood_face(n) == events[1].2));
    assert_eq!(mood_face(15), "🦾");
}
