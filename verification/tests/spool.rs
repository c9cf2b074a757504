use openab::acp::ContentBlock;
use openab::adapter::{ChannelRef, MessageRef};
use openab::spool::{
    epoch_ms, now_ms, queue_file_name, sanitize, slug_from_config_source, PersistedMessage,
    QueueSpool,
};

fn channel() -> ChannelRef {
    ChannelRef {
        platform: "discord".to_string(),
        channel_id: "chan-1".to_string(),
        thread_id: Some("thread-1".to_string()),
        parent_id: None,
        origin_event_id: None,
    }
}

fn sample(prompt: &str) -> PersistedMessage {
    PersistedMessage {
        id: 0,
        thread_key: "discord:thread-1".to_string(),
        thread_channel: channel(),
        adapter_kind: "discord".to_string(),
        sender_json: r#"{"sender_id":"u1"}"#.to_string(),
        sender_name: "user".to_string(),
        prompt: prompt.to_string(),
        extra_blocks: vec![ContentBlock::Text { text: "img-caption".to_string() }],
        trigger_msg: MessageRef {
            channel: channel(),
            message_id: "msg-1".to_string(),
        },
        estimated_tokens: 42,
        other_bot_present: false,
        enqueued_at_ms: now_ms(),
    }
}

#[test]
fn sanitize_keeps_filenames_safe() {
    assert_eq!(sanitize("reina"), "reina");
    assert_eq!(sanitize("config.reina.dev"), "config_reina_dev");
    assert_eq!(sanitize("../escape"), "___escape");
    assert_eq!(sanitize(""), "default");
}

#[test]
fn slug_from_config_source_is_per_bot() {
    assert_eq!(slug_from_config_source("/home/x/dev/config/config.reina.dev.toml"), "config_reina_dev");
    assert_eq!(slug_from_config_source("config.hana.dev.toml"), "config_hana_dev");
    assert_eq!(slug_from_config_source("https://example.test/config.northstar.toml"), "config_northstar");
    assert_ne!(
        slug_from_config_source("config.reina.dev.toml"),
        slug_from_config_source("config.hana.dev.toml"),
    );
}

#[test]
fn append_persists_and_survives_reopen() {
    let mut spool = QueueSpool::open_at(None);
    let id0 = spool.append(sample("first"));
    let id1 = spool.append(sample("second"));
    assert_eq!((id0, id1), (0, 1));
    assert_eq!(spool.len(), 2);

    let mut reopened = QueueSpool::open_at(Some(spool.entries()));
    let entries = reopened.entries();
    assert_eq!(entries.len(), 2);
    assert_eq!(entries[0].prompt, "first");
    assert_eq!(entries[1].prompt, "second");
    assert_eq!(entries[0].thread_channel.channel_id, "chan-1");
    assert_eq!(entries[1].id, 1);
    assert_eq!(reopened.append(sample("third")), 2);
}

#[test]
fn remove_is_persistent_and_idempotent() {
    let mut spool = QueueSpool::open_at(None);
    let id0 = spool.append(sample("a"));
    let _id1 = spool.append(sample("b"));
    assert!(spool.remove(id0));
    assert!(!spool.remove(id0));
    assert_eq!(spool.len(), 1);

    let reopened = QueueSpool::open_at(Some(spool.entries()));
    let entries = reopened.entries();
    assert_eq!(entries.len(), 1);
    assert_eq!(entries[0].prompt, "b");
}

#[test]
fn corrupt_file_starts_empty() {
    let mut spool = QueueSpool::open_at(None);
    assert_eq!(spool.len(), 0);
    spool.append(sample("recover"));
    assert_eq!(spool.len(), 1);
}

#[test]
fn remove_matching_purges_a_thread() {
    let mut spool = QueueSpool::open_at(None);
    let a = sample("keep");
    let mut b = sample("drop");
    b.thread_key = "discord:other".to_string();
    spool.append(a);
    spool.append(b);
    assert!(spool.remove_matching(|e| e.thread_key == "discord:other"));
    assert!(!spool.remove_matching(|e| e.thread_key == "discord:other"));
    let entries = spool.entries();
    assert_eq!(entries.len(), 1);
    assert_eq!(entries[0].prompt, "keep");
}

#[test]
fn extra_blocks_roundtrip_both_variants() {
    let mut spool = QueueSpool::open_at(None);
    let mut msg = sample("with-image");
    msg.extra_blocks = vec![
        ContentBlock::Text { text: "caption".to_string() },
        ContentBlock::Image { media_type: "image/png".to_string(), data: "AAAA".to_string() },
    ];
    spool.append(msg);

    let reopened = QueueSpool::open_at(Some(spool.entries()));
    let blocks = &reopened.entries()[0].extra_blocks;
    assert_eq!(blocks.len(), 2);
    match &blocks[1] {
        ContentBlock::Image { media_type, data } => {
            assert_eq!(media_type, "image/png");
            assert_eq!(data, "AAAA");
        }
        _ => panic!("expected image block"),
    }
}

#[test]
fn next_id_is_beyond_the_largest() {
    let mut a = sample("a");
    a.id = 7;
    let mut b = sample("b");
    b.id = 3;
    let mut spool = QueueSpool::open_at(Some(vec![a, b]));
    assert_eq!(spool.append(sample("c")), 8);
}

#[test]
fn queue_files_stay_in_their_directory() {
    assert_eq!(queue_file_name("../escape"), "queue-___escape.json");
    assert_eq!(queue_file_name(""), "queue-default.json");
    assert_eq!(slug_from_config_source("C:\\bots\\a.toml"), "a");
    assert_eq!(slug_from_config_source("dir/"), "default");
}

#[test]
fn time_stamps() {
    assert_eq!(epoch_ms(None), 0);
    assert_eq!(epoch_ms(Some(1_700_000_000_000)), 1_700_000_000_000);
    assert_eq!(epoch_ms(Some(u64::MAX as u128)), -1);
    assert_eq!(epoch_ms(Some(1u128 << 63)), i64::MIN);
    assert!(now_ms() > 1_700_000_000_000);
}

#[test]
fn removed_entry_leaves_the_others() {
    let mut spool = QueueSpool::open_at(None);
    for prompt in ["a", "b", "c"] {
        spool.append(sample(prompt));
    }
    assert!(spool.remove(1));
    assert!(!spool.remove(9));
    let prompts: Vec<String> = spool.entries().into_iter().map(|e| e.prompt).collect();
    assert_eq!(prompts, vec!["a", "c"]);
    assert_eq!(spool.append(sample("d")), 3);
}

#[test]
fn removing_what_was_just_queued_restores_the_queue() {
    let mut spool = QueueSpool::open_at(None);
    spool.append(sample("a"));
    let id = spool.append(sample("b"));
    assert!(spool.remove(id));
    let prompts: Vec<String> = spool.entries().into_iter().map(|e| e.prompt).collect();
    assert_eq!(prompts, vec!["a"]);
}
