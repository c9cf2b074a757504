use openab::config::ContextRecoveryConfig;
use openab::context_recovery::{
    discord_links_of, discord_message_links, normalize_slack_timestamp, slack_link_of,
    slack_links_of, slack_message_links, slack_permalink_timestamp, truncate_chars, ContextCollector,
    DiscordMessageLink, RecoveredMessage, SlackMessageLink,
};

fn config() -> ContextRecoveryConfig {
    ContextRecoveryConfig {
        enabled: true,
        history_limit: 12,
        link_limit: 4,
        link_neighbors: 2,
        max_message_chars: 20,
        max_total_chars: 24,
        settle_delay_ms: 0,
    }
}

fn message(channel: &str, id: &str, content: &str) -> RecoveredMessage {
    RecoveredMessage {
        channel_id: channel.to_string(),
        thread_id: None,
        message_id: id.to_string(),
        sender_id: None,
        sender_name: None,
        timestamp: None,
        content: content.to_string(),
        attachment_count: 0,
        relations: Vec::new(),
    }
}

#[test]
fn parses_discord_links_and_deduplicates() {
    let input = "https://discord.com/channels/1/2/3 and https://canary.discord.com/channels/1/2/3 plus https://discordapp.com/channels/@me/4/5";
    assert_eq!(
        discord_message_links(input, 4),
        vec![
            DiscordMessageLink {
                guild_id: "1".into(),
                channel_id: "2".into(),
                message_id: "3".into(),
            },
            DiscordMessageLink {
                guild_id: "@me".into(),
                channel_id: "4".into(),
                message_id: "5".into(),
            },
        ]
    );
}

#[test]
fn parses_slack_permalink_and_thread_root() {
    let input = "https://acme.slack.com/archives/C123/p1721234567123456?thread_ts=1721234000.654321&cid=C123";
    assert_eq!(
        slack_message_links(input, 4),
        vec![SlackMessageLink {
            workspace: "acme".into(),
            channel_id: "C123".into(),
            message_ts: "1721234567.123456".into(),
            thread_ts: Some("1721234000.654321".into()),
        }]
    );
}

#[test]
fn slack_link_identity_includes_workspace() {
    let input = "https://alpha.slack.com/archives/C123/p1721234567123456 https://beta.slack.com/archives/C123/p1721234567123456";
    let links = slack_message_links(input, 4);
    assert_eq!(links.len(), 2);
    assert_eq!(links[0].workspace, "alpha");
    assert_eq!(links[1].workspace, "beta");
}

#[test]
fn collector_deduplicates_and_preserves_relations() {
    let cfg = config();
    let mut collector = ContextCollector::new(&cfg);
    collector.add(message("c", "1", "hello"), "current_window");
    collector.add(message("c", "1", "hello"), "native_reply");
    let context = collector.finish().unwrap();
    assert_eq!(context.messages.len(), 1);
    assert_eq!(
        context.messages[0].relations,
        vec!["current_window", "native_reply"]
    );
}

#[test]
fn collector_prioritizes_linked_target_under_total_budget() {
    let cfg = config();
    let mut collector = ContextCollector::new(&cfg);
    collector.add(message("c", "1", "abcdefghijklmnopqrst"), "current_window");
    collector.add(message("x", "2", "linked-target"), "linked_target");
    let context = collector.finish().unwrap();
    assert!(context.incomplete);
    assert!(context.messages.iter().any(|item| item.message_id == "2"));
}

#[test]
fn failures_survive_without_messages() {
    let cfg = config();
    let mut collector = ContextCollector::new(&cfg);
    collector.failure(
        "linked_message",
        "disallowed_target",
        Some("discord:1:2".into()),
    );
    let context = collector.finish().unwrap();
    assert!(context.incomplete);
    assert!(context.messages.is_empty());
    assert_eq!(context.failures[0].code, "disallowed_target");
}

#[test]
fn empty_success_still_records_that_recovery_ran() {
    let cfg = config();
    let context = ContextCollector::new(&cfg).finish().unwrap();
    assert!(!context.incomplete);
    assert!(context.messages.is_empty());
    assert!(context.failures.is_empty());
}

#[test]
fn collector_marks_per_message_truncation() {
    let cfg = config();
    let mut collector = ContextCollector::new(&cfg);
    collector.add(
        message("c", "1", "abcdefghijklmnopqrstuvwxyz"),
        "linked_target",
    );
    let context = collector.finish().unwrap();
    assert!(context.incomplete);
    assert_eq!(context.messages[0].content.chars().count(), 20);
    assert!(context.messages[0].content.ends_with("[truncated]"));
}

#[test]
fn links_are_limited() {
    let input = "https://discord.com/channels/1/2/3 https://ptb.discord.com/channels/1/2/4";
    assert_eq!(discord_message_links(input, 1).len(), 1);
    assert_eq!(discord_message_links(input, 2)[1].message_id, "4");
    assert!(discord_message_links(input, 0).is_empty());
    assert!(discord_message_links("no link", 4).is_empty());
}

#[test]
fn slack_workspace_is_lowered() {
    let links = slack_message_links("https://ACME.slack.com/archives/C1/p1721234567123456", 4);
    assert_eq!(links[0].workspace, "acme");
    assert_eq!(links[0].thread_ts, None);
}

#[test]
fn slack_link_with_a_wrong_thread_is_no_link() {
    let input = "https://a.slack.com/archives/C1/p1721234567123456?thread_ts=1721234000.6543219";
    assert!(slack_message_links(input, 4).is_empty());
}

#[test]
fn links_of_given_matches() {
    let found = vec![
        vec![
            Some("whole".to_string()),
            Some("1".to_string()),
            Some("2".to_string()),
            Some("3".to_string()),
        ],
        vec![Some("whole".to_string()), None, Some("2".to_string()), Some("4".to_string())],
        vec![
            Some("whole".to_string()),
            Some("9".to_string()),
            Some("2".to_string()),
            Some("3".to_string()),
        ],
    ];
    let links = discord_links_of(&found, 4);
    assert_eq!(links.len(), 1);
    assert_eq!(links[0].guild_id, "1");
    let groups = vec![
        Some("whole".to_string()),
        Some("Acme".to_string()),
        Some("C1".to_string()),
        Some("1721234567123456".to_string()),
    ];
    let thread = Some(vec![Some("t".to_string()), Some("1721234000.5".to_string())]);
    let link = slack_link_of(&groups, &thread).unwrap();
    assert_eq!(link.workspace, "acme");
    assert_eq!(link.message_ts, "1721234567.123456");
    assert_eq!(link.thread_ts.as_deref(), Some("1721234000.500000"));
    assert_eq!(slack_link_of(&groups, &Some(vec![None, Some("12.5".to_string())])), None);
}

#[test]
fn slack_timestamps() {
    assert_eq!(slack_permalink_timestamp("1234567"), Some("1.234567".to_string()));
    assert_eq!(slack_permalink_timestamp("123456"), None);
    assert_eq!(slack_permalink_timestamp("12345a7"), None);
    assert_eq!(
        normalize_slack_timestamp("1721234000.65"),
        Some("1721234000.650000".to_string())
    );
    assert_eq!(normalize_slack_timestamp("1721234000."), None);
    assert_eq!(normalize_slack_timestamp("1721234000.6543219"), None);
    assert_eq!(
        normalize_slack_timestamp("1721234000654321"),
        Some("1721234000.654321".to_string())
    );
    assert_eq!(normalize_slack_timestamp("172123400065432"), None);
}

#[test]
fn cutting_keeps_to_the_limit() {
    assert_eq!(truncate_chars("abc", 3), ("abc".to_string(), false));
    assert_eq!(truncate_chars("abc", 0), (String::new(), true));
    assert_eq!(truncate_chars("abcdefghijklmnop", 12), ("abcdefghijkl".to_string(), true));
    assert_eq!(truncate_chars("abcdefghijklmnop", 13), ("a…[truncated]".to_string(), true));
}

#[test]
fn total_budget_is_kept_and_told() {
    let cfg = config();
    let mut collector = ContextCollector::new(&cfg);
    collector.add(message("c", "1", "abcdefghijklmnopqrst"), "current_window");
    collector.add(message("c", "2", "neighbor"), "linked_neighbor");
    collector.add(message("c", "3", "target"), "linked_target");
    collector.add(message("c", "4", ""), "current_window");
    let context = collector.finish().unwrap();
    assert!(context.incomplete);
    let ids: Vec<&str> = context.messages.iter().map(|m| m.message_id.as_str()).collect();
    assert_eq!(ids, vec!["1", "2", "3"]);
    assert_eq!(context.messages[0].content, "abcdefghij");
    let total: usize = context.messages.iter().map(|m| m.content.chars().count()).sum();
    assert_eq!(total, 24);
}

#[test]
fn relation_given_twice_is_kept_once() {
    let cfg = config();
    let mut collector = ContextCollector::new(&cfg);
    collector.add(message("c", "1", "hello"), "current_window");
    collector.add(message("c", "1", "other"), "current_window");
    let context = collector.finish().unwrap();
    assert_eq!(context.messages[0].relations, vec!["current_window"]);
    assert_eq!(context.messages[0].content, "hello");
    assert!(!context.incomplete);
    assert_eq!(context.schema, "openab.recovered-context.v1");
}

#[test]
fn slack_links_of_given_matches() {
    let link = |workspace: &str, thread: Option<&str>| {
        Some(SlackMessageLink {
            workspace: workspace.to_string(),
            channel_id: "C1".to_string(),
            message_ts: "1721234567.123456".to_string(),
            thread_ts: thread.map(|t| t.to_string()),
        })
    };
    let found = || vec![link("a", None), None, link("a", Some("1.0")), link("b", None)];
    let links = slack_links_of(found(), 4);
    assert_eq!(links.len(), 2);
    assert_eq!(links[0].thread_ts, None);
    assert_eq!(links[1].workspace, "b");
    assert_eq!(slack_links_of(found(), 1).len(), 1);
    assert!(slack_links_of(found(), 0).is_empty());
}
