use openab::live_status::{
    format_duration, initial_line, is_status_line, DriverInput, LiveStatus, LiveStatusHandle, Phase,
    StatusEvent, MARKER,
};
use openab::time::Duration;

fn status() -> LiveStatus {
    LiveStatus::new(Duration::from_secs(10))
}

#[test]
fn it_does_not_claim_thinking_before_anything_is_heard() {
    let mut s = status();
    s.tick(Duration::from_secs(5));
    assert_eq!(s.phase(), &Phase::Accepted);
    assert!(s.render().contains("受け取りました"));
    assert!(!s.render().contains("考えています"));
}

#[test]
fn time_alone_never_promotes_a_phase() {
    let mut s = status();
    for second in 1..120 {
        s.tick(Duration::from_secs(second));
        assert!(
            matches!(s.phase(), Phase::Accepted | Phase::Silent { .. }),
            "tick promoted the phase to {:?} without an event",
            s.phase()
        );
    }
}

#[test]
fn silence_is_reported_as_silence() {
    let mut s = status();
    s.on_thinking();
    s.tick(Duration::from_secs(9));
    assert_eq!(s.phase(), &Phase::Thinking);
    s.tick(Duration::from_secs(10));
    match s.phase() {
        Phase::Silent { last_known } => assert_eq!(**last_known, Phase::Thinking),
        other => panic!("expected silence, got {other:?}"),
    }
    assert!(s.render().contains("反応がありません"));
}

#[test]
fn a_running_tool_is_not_silence() {
    let mut s = status();
    s.on_tool_start("1", "bash");
    s.tick(Duration::from_secs(300));
    assert_eq!(s.phase(), &Phase::Tool { title: "bash".into() });
}

#[test]
fn the_tool_name_is_shown_verbatim() {
    let mut s = status();
    s.on_tool_start("1", "npm run test:worker");
    assert!(s.render().contains("npm run test:worker"));
}

#[test]
fn it_names_the_tool_that_is_still_running() {
    let mut s = status();
    s.on_tool_start("1", "bash");
    s.on_tool_start("2", "read");
    s.on_tool_done("1", true);
    assert_eq!(s.phase(), &Phase::Tool { title: "read".into() });
}

#[test]
fn tool_failures_are_not_hidden() {
    let mut s = status();
    s.on_tool_start("1", "bash");
    s.on_tool_done("1", false);
    assert!(s.render().contains("失敗1"));
}

#[test]
fn elapsed_time_never_goes_backwards() {
    let mut s = status();
    s.tick(Duration::from_secs(30));
    s.tick(Duration::from_secs(2));
    assert!(s.render().contains("30秒"));
}

#[test]
fn recovering_from_silence_requires_an_event() {
    let mut s = status();
    s.on_thinking();
    s.tick(Duration::from_secs(20));
    assert!(matches!(s.phase(), Phase::Silent { .. }));
    s.tick(Duration::from_secs(21));
    assert!(matches!(s.phase(), Phase::Silent { .. }), "silence lifted itself");
    s.on_thinking();
    assert_eq!(s.phase(), &Phase::Thinking);
}

#[test]
fn every_rendered_phase_was_caused_by_its_event() {
    let mut s = status();
    assert!(!s.render().contains("実行中"));
    assert!(!s.render().contains("書いています"));
    s.on_thinking();
    assert!(s.render().contains("考えています"));
    assert!(!s.render().contains("実行中"));
    s.on_tool_start("1", "grep");
    assert!(s.render().contains("実行中: grep"));
    s.on_tool_done("1", true);
    assert!(s.render().contains("ツール1件"));
}

#[test]
fn minutes_are_shown_once_past_a_minute() {
    let mut s = status();
    s.on_tool_start("1", "cargo build");
    s.tick(Duration::from_secs(95));
    assert!(s.render().contains("1分35秒"));
}

#[test]
fn a_status_line_is_recognisable() {
    assert!(is_status_line(&initial_line(Duration::from_secs(10))));
    assert!(!is_status_line("実際の回答です"));
}

#[test]
fn the_marker_is_invisible_rather_than_decorative() {
    assert_eq!(MARKER.chars().count(), 1);
    assert!(MARKER.starts_with('\u{200b}'));
}

#[test]
fn the_first_line_claims_nothing_about_the_agent() {
    let line = initial_line(Duration::from_secs(10));
    assert!(line.contains("受け取りました"));
    assert!(!line.contains("考えています"));
}

#[test]
fn text_hands_the_message_over_immediately() {
    let mut handle = LiveStatusHandle::connect();
    assert!(!handle.is_handed_over());
    let event = handle.send(StatusEvent::TextStarted);
    assert!(handle.is_handed_over());
    assert_eq!(event, Some(StatusEvent::TextStarted));
}

#[test]
fn the_line_updates_while_waiting() {
    let mut handle = LiveStatusHandle::connect();
    let mut status = LiveStatus::new(Duration::from_secs(10));
    let event = handle.send(StatusEvent::Thinking).unwrap();
    let line = status
        .drive(DriverInput::Reported { event }, handle.is_handed_over(), Duration::from_secs(1))
        .unwrap();
    assert!(is_status_line(&line), "{line}");
    assert!(line.contains("考えています"), "{line}");
}

#[test]
fn a_disabled_handle_reports_nothing() {
    let mut handle = LiveStatusHandle::disabled();
    assert_eq!(handle.send(StatusEvent::Thinking), None);
    assert!(handle.is_handed_over());
}

#[test]
fn the_driver_stops_when_the_answer_starts() {
    let mut status = LiveStatus::new(Duration::from_secs(10));
    let second = Duration::from_secs(1);
    assert!(status.drive(DriverInput::Timer, false, second).is_some());
    assert_eq!(status.drive(DriverInput::Timer, true, second), None);
    assert_eq!(status.drive(DriverInput::Closed, false, second), None);
    let event = StatusEvent::TextStarted;
    assert_eq!(status.drive(DriverInput::Reported { event }, false, second), None);
}

#[test]
fn the_whole_line_is_as_stated() {
    let mut s = status();
    s.on_tool_start("1", "bash");
    s.on_tool_start("2", "read");
    s.on_tool_start("3", "grep");
    s.on_tool_done("3", false);
    s.tick(Duration::from_secs(61));
    assert_eq!(s.render(), "🔧 実行中: read · 1分1秒　ツール1件（失敗1） · 並行2件");
    s.on_tool_done("1", true);
    s.on_tool_done("2", true);
    s.tick(Duration::from_secs(90));
    assert_eq!(
        s.render(),
        "… 反応がありません（直前: 考えています） · 1分30秒　ツール3件（失敗1）"
    );
    assert_eq!(status().render(), "⏳ 受け取りました · 0秒");
    let mut s = status();
    s.tick(Duration::from_secs(10));
    assert_eq!(s.render(), "… 応答がまだありません · 10秒");
}

#[test]
fn durations_are_shown_in_seconds_then_minutes() {
    assert_eq!(format_duration(59_999), "59秒");
    assert_eq!(format_duration(60_000), "1分0秒");
}
