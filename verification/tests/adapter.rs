use std::collections::HashMap;

use openab::acp::{AcpEvent, ContentBlock};
use openab::adapter::{thread_key, AdapterRouter, ChannelRef, ChatAdapter};
use openab::config::{AttachmentsConfig, ReactionsConfig, ToolDisplay};
use openab::display::{compose_display, sanitize_title, ToolEntry, ToolState};
use openab::stream::{append_text_chunk, split_streaming_display};
use openab::turn::TurnInput;

struct TestAdapter;

impl ChatAdapter for TestAdapter {
    fn platform(&self) -> &'static str {
        "test"
    }
    fn message_limit(&self) -> usize {
        2000
    }
    fn use_streaming(&self, _other_bot_present: bool) -> bool {
        false
    }
}

#[test]
fn use_streaming_is_required_method() {
    let adapter = TestAdapter;
    assert!(!adapter.use_streaming(false));
    assert_eq!(adapter.platform(), "test");
    assert_eq!(adapter.message_limit(), 2000);
}

#[test]
fn origin_event_id_excluded_from_eq() {
    let a = ChannelRef {
        platform: "line".into(),
        channel_id: "U123".into(),
        thread_id: None,
        parent_id: None,
        origin_event_id: Some("evt_aaa".into()),
    };
    let b = ChannelRef {
        platform: "line".into(),
        channel_id: "U123".into(),
        thread_id: None,
        parent_id: None,
        origin_event_id: Some("evt_bbb".into()),
    };
    assert_eq!(a, b, "same channel with different event IDs must be equal");
}

#[test]
fn origin_event_id_excluded_from_hash() {
    let a = ChannelRef {
        platform: "line".into(),
        channel_id: "U123".into(),
        thread_id: None,
        parent_id: None,
        origin_event_id: Some("evt_aaa".into()),
    };
    let b = ChannelRef {
        platform: "line".into(),
        channel_id: "U123".into(),
        thread_id: None,
        parent_id: None,
        origin_event_id: Some("evt_bbb".into()),
    };
    let mut map = HashMap::new();
    map.insert(a, "first");
    map.insert(b, "second");
    assert_eq!(map.len(), 1);
    assert_eq!(map.values().next(), Some(&"second"));
}

#[test]
fn origin_event_id_survives_clone() {
    let ch = ChannelRef {
        platform: "line".into(),
        channel_id: "U123".into(),
        thread_id: None,
        parent_id: None,
        origin_event_id: Some("evt_abc".into()),
    };
    let thread_ch = ChannelRef {
        thread_id: Some("topic_1".into()),
        origin_event_id: ch.origin_event_id.clone(),
        ..ch.clone()
    };
    assert_eq!(thread_ch.origin_event_id.as_deref(), Some("evt_abc"));
}

fn tool(id: &str, title: &str, state: ToolState) -> ToolEntry {
    ToolEntry {
        id: id.into(),
        title: title.into(),
        state,
    }
}

#[test]
fn compose_display_full_shows_complete_title() {
    let tools = vec![tool(
        "1",
        "curl -s https://example.com",
        ToolState::Completed,
    )];
    let out = compose_display(&tools, "done", false, ToolDisplay::Full);
    assert!(out.contains("`curl -s https://example.com`"));
}

#[test]
fn compose_display_compact_shows_count_summary() {
    let tools = vec![
        tool("1", "curl -s https://example.com", ToolState::Completed),
        tool("2", "grep -r pattern src/", ToolState::Completed),
        tool("3", "cat /etc/hosts", ToolState::Failed),
    ];
    let out = compose_display(&tools, "done", false, ToolDisplay::Compact);
    assert!(out.contains("✅ 2"), "expected completed count: {out}");
    assert!(out.contains("❌ 1"), "expected failed count: {out}");
    assert!(out.contains("tool(s)"), "expected tool(s) label: {out}");
    assert!(!out.contains("curl"), "should not show tool names: {out}");
    assert!(!out.contains("grep"), "should not show tool names: {out}");
}

#[test]
fn compose_display_compact_shows_running_count() {
    let tools = vec![
        tool("1", "curl", ToolState::Completed),
        tool("2", "npm install", ToolState::Running),
    ];
    let out = compose_display(&tools, "", true, ToolDisplay::Compact);
    assert!(out.contains("✅ 1"), "expected completed count: {out}");
    assert!(out.contains("🔧 1"), "expected running count: {out}");
}

#[test]
fn compose_display_none_hides_tools() {
    let tools = vec![tool(
        "1",
        "curl -s https://example.com",
        ToolState::Completed,
    )];
    let out = compose_display(&tools, "response text", false, ToolDisplay::Hidden);
    assert_eq!(out, "response text");
}

#[test]
fn append_text_chunk_separates_steered_response() {
    let mut text = "first response".to_string();
    append_text_chunk(&mut text, "second response", true);
    assert_eq!(text, "first response\n\nsecond response");
}

#[test]
fn append_text_chunk_does_not_separate_normal_stream_delta() {
    let mut text = "first".to_string();
    append_text_chunk(&mut text, " response", false);
    assert_eq!(text, "first response");
}

#[test]
fn append_text_chunk_separates_standalone_stream_comments() {
    let mut text = "調査する。".to_string();
    append_text_chunk(&mut text, "次に確認する。", false);
    assert_eq!(text, "調査する。\n次に確認する。");
}

#[test]
fn append_text_chunk_does_not_separate_inside_inline_code() {
    let mut text = "Use `foo.".to_string();
    append_text_chunk(&mut text, "bar` now", false);
    assert_eq!(text, "Use `foo.bar` now");
}

#[test]
fn append_text_chunk_does_not_separate_inside_multi_tick_inline_code() {
    let mut text = "Use ``foo.".to_string();
    append_text_chunk(&mut text, "bar`` now", false);
    assert_eq!(text, "Use ``foo.bar`` now");
}

#[test]
fn append_text_chunk_separates_after_closed_inline_code() {
    let mut text = "Use `foo`.".to_string();
    append_text_chunk(&mut text, "Next step.", false);
    assert_eq!(text, "Use `foo`.\nNext step.");
}

#[test]
fn append_text_chunk_preserves_mid_sentence_stream_delta() {
    let mut text = "調査".to_string();
    append_text_chunk(&mut text, "します。", false);
    assert_eq!(text, "調査します。");
}

#[test]
fn append_text_chunk_preserves_chunk_leading_newline() {
    let mut text = "first response".to_string();
    append_text_chunk(&mut text, "\nsecond response", true);
    assert_eq!(text, "first response\nsecond response");
}

#[test]
fn split_streaming_display_splits_without_truncating() {
    let text = "a".repeat(4500);
    let chunks = split_streaming_display(&text, 2000);
    assert!(chunks.len() > 1);
    assert_eq!(chunks.concat(), text);
    assert!(
        chunks.iter().all(|chunk| chunk.chars().count() <= 2000),
        "all streaming chunks must respect platform limit"
    );
}

#[test]
fn split_streaming_display_empty_uses_zero_width_space() {
    let chunks = split_streaming_display("", 2000);
    assert_eq!(chunks, vec!["\u{200b}".to_string()]);
}

fn channel(thread_id: Option<&str>) -> ChannelRef {
    ChannelRef {
        platform: "slack".into(),
        channel_id: "C1".into(),
        thread_id: thread_id.map(|t| t.to_string()),
        parent_id: None,
        origin_event_id: None,
    }
}

fn text(text: &str) -> ContentBlock {
    ContentBlock::Text { text: text.into() }
}

fn image(data: &str) -> ContentBlock {
    ContentBlock::Image { media_type: "image/png".into(), data: data.into() }
}

#[test]
fn different_threads_are_different_channels() {
    assert_ne!(channel(Some("T1")), channel(Some("T2")));
    assert_ne!(channel(Some("T1")), channel(None));
    assert_eq!(channel(Some("T1")), channel(Some("T1")));
}

#[test]
fn session_of_a_thread_is_its_platform_and_thread() {
    assert_eq!(thread_key("slack", &channel(Some("T1"))), "slack:T1");
    assert_eq!(thread_key("slack", &channel(None)), "slack:C1");
}

#[test]
fn arrival_is_packed_in_order() {
    let packed = AdapterRouter::pack_arrival_event(
        "{}",
        "typed",
        vec![image("AAAA"), text("voice"), image("BBBB"), text("more")],
    );
    assert_eq!(
        packed,
        vec![
            text("<sender_context>\n{}\n</sender_context>\n\n"),
            text("voice"),
            text("more"),
            text("typed"),
            image("AAAA"),
            image("BBBB"),
        ]
    );
}

#[test]
fn empty_prompt_is_not_packed() {
    let packed = AdapterRouter::pack_arrival_event("{}", "", vec![text("voice")]);
    assert_eq!(
        packed,
        vec![text("<sender_context>\n{}\n</sender_context>\n\n"), text("voice")]
    );
}

fn router(remove_after_reply: bool) -> AdapterRouter {
    let mut reactions = ReactionsConfig::default();
    reactions.remove_after_reply = remove_after_reply;
    AdapterRouter::new(reactions, 60, 5, AttachmentsConfig::default(), "/home/node".into())
}

#[test]
fn conclusion_of_a_handled_message() {
    let done = router(true).conclude(&None);
    assert!(done.done);
    assert_eq!(done.clear_after_ms, Some(1_500));
    assert_eq!(done.message, None);
    let failed = router(true).conclude(&Some("gone".into()));
    assert!(!failed.done);
    assert_eq!(failed.clear_after_ms, Some(2_500));
    assert_eq!(failed.message.as_deref(), Some("⚠️ gone"));
    assert_eq!(router(false).conclude(&None).clear_after_ms, None);
}

#[test]
fn timeout_below_the_liveness_interval_is_noticed() {
    assert!(!router(false).timeout_may_be_bypassed());
    let slow = AdapterRouter::new(
        ReactionsConfig::default(),
        5,
        5,
        AttachmentsConfig::default(),
        "/".into(),
    );
    assert!(slow.timeout_may_be_bypassed());
}

#[test]
fn refused_steer_leaves_no_mark() {
    let mut router = router(false);
    let token = router.enter_post("slack:T1");
    router.begin_steer("slack:T1");
    assert_eq!(router.end_steer("slack:T1", false), None);
    let mut turn = router.begin_turn(1, false, false);
    let say = |t: &str| TurnInput::Event { event: AcpEvent::Text(t.to_string()) };
    router.step_turn(&mut turn, "slack:T1", say("one"));
    router.step_turn(&mut turn, "slack:T1", say(" two"));
    router.begin_steer("slack:T1");
    assert_eq!(router.end_steer("slack:T1", true), Some(token));
    router.step_turn(&mut turn, "slack:T1", say("three"));
    router.step_turn(&mut turn, "slack:T1", say(" four"));
    let (_, text) = turn.output();
    assert_eq!(text, "one two\n\nthree four");
}

#[test]
fn late_turn_keeps_the_next_post() {
    let mut router = router(false);
    let first = router.enter_post("slack:T1");
    let second = router.enter_post("slack:T1");
    router.leave_post("slack:T1", first);
    assert_eq!(router.end_steer("slack:T1", true), Some(second));
    router.leave_post("slack:T1", second);
    assert_eq!(router.end_steer("slack:T1", true), None);
}

#[test]
fn full_display_collapses_while_streaming() {
    let mut tools = Vec::new();
    for i in 0..5 {
        tools.push(tool(&format!("d{i}"), "done", ToolState::Completed));
        tools.push(tool(&format!("r{i}"), &format!("run{i}"), ToolState::Running));
    }
    let out = compose_display(&tools, "text  \n", true, ToolDisplay::Full);
    assert_eq!(
        out,
        "✅ 5 tool(s) completed\n🔧 2 more running\n🔧 `run2`...\n🔧 `run3`...\n🔧 `run4`...\n\ntext"
    );
}

#[test]
fn titles_are_flattened() {
    assert_eq!(sanitize_title("a\r\nb `c`"), "a ; b 'c'");
    assert_eq!(sanitize_title("a ; b 'c'"), "a ; b 'c'");
}

#[test]
fn text_start_is_any_letter() {
    let mut text = "終わり。".to_string();
    append_text_chunk(&mut text, "é", false);
    assert_eq!(text, "終わり。\né");
    let mut text = "done.".to_string();
    append_text_chunk(&mut text, "(x)", false);
    assert_eq!(text, "done.(x)");
}

#[test]
fn hash_parts_leave_out_the_event() {
    let mut a = channel(Some("T1"));
    a.origin_event_id = Some("evt".into());
    let thread = Some("T1".to_string());
    assert_eq!(
        a.hash_parts(),
        (&"slack".to_string(), &"C1".to_string(), &thread, &None)
    );
    assert_eq!(a.hash_parts(), channel(Some("T1")).hash_parts());
    assert_ne!(a.hash_parts(), channel(Some("T2")).hash_parts());
}
