use openab::acp::AcpEvent;
use openab::adapter::{ChannelRef, MessageRef};
use openab::config::ToolDisplay;
use openab::delivery::{Delivery, DeliveryStep, Upload};
use openab::format::{split_message, truncate_chars_tail};
use openab::posts::{ActivePosts, EditGate, PostStep, StreamingPost};
use openab::time::Duration;
use openab::turn::{
    final_chunks, initial_content, input_of, SteerSeparators, Turn, TurnInput, TurnStep,
};

fn turn(streaming: bool, reset: bool) -> Turn {
    Turn::begin(7, Duration::from_secs(60), streaming, ToolDisplay::Full, reset)
}

fn step(turn: &mut Turn, input: TurnInput) -> Vec<TurnStep> {
    turn.step(input, &mut SteerSeparators::new(), "mock:T")
}

fn event(turn: &mut Turn, event: AcpEvent) -> Vec<TurnStep> {
    step(turn, TurnInput::Event { event })
}

fn start(id: &str, title: &str) -> AcpEvent {
    AcpEvent::ToolStart { id: id.into(), title: title.into() }
}

fn done(id: &str, title: &str, status: &str) -> AcpEvent {
    AcpEvent::ToolDone { id: id.into(), title: title.into(), status: status.into() }
}

fn show(content: &str) -> TurnStep {
    TurnStep::Show { content: content.into() }
}

#[test]
fn streaming_turn_shows_tools_and_text() {
    let mut t = turn(true, false);
    assert_eq!(event(&mut t, AcpEvent::Thinking), vec![TurnStep::SetThinking]);
    assert_eq!(
        event(&mut t, start("1", "ls `x`")),
        vec![TurnStep::SetTool { title: "ls `x`".into() }, show("🔧 `ls 'x'`...\n\n")]
    );
    assert_eq!(event(&mut t, start("2", "")), vec![]);
    assert_eq!(
        event(&mut t, done("1", "", "completed")),
        vec![TurnStep::SetThinking, show("✅ `ls 'x'`\n\n")]
    );
    assert_eq!(
        event(&mut t, done("3", "rm", "failed")),
        vec![TurnStep::SetThinking, show("✅ `ls 'x'`\n❌ `rm`\n\n")]
    );
    assert_eq!(
        event(&mut t, AcpEvent::Text("Hi ".into())),
        vec![show("✅ `ls 'x'`\n❌ `rm`\n\nHi")]
    );
    assert_eq!(event(&mut t, AcpEvent::ConfigUpdate), vec![TurnStep::AdoptConfig]);
    assert_eq!(event(&mut t, AcpEvent::Other), vec![]);
    assert!(!t.is_over());
}

#[test]
fn silent_turn_shows_nothing_on_the_way() {
    let mut t = turn(false, false);
    assert_eq!(event(&mut t, AcpEvent::Text("Hi".into())), vec![]);
    assert_eq!(
        event(&mut t, start("1", "ls")),
        vec![TurnStep::SetTool { title: "ls".into() }]
    );
}

#[test]
fn stale_response_is_ignored() {
    let mut t = turn(false, false);
    let stale = TurnInput::Response { id: 6, error: Some("late".into()) };
    assert_eq!(step(&mut t, stale), vec![]);
    assert!(!t.is_over());
    step(&mut t, TurnInput::Response { id: 7, error: None });
    assert!(t.is_over());
    assert_eq!(t.final_content("text", false, &Vec::new()), "text");
}

#[test]
fn response_error_is_told() {
    let mut t = turn(false, false);
    step(&mut t, TurnInput::Response { id: 7, error: Some("refused".into()) });
    assert_eq!(t.final_content("", false, &Vec::new()), "⚠️ refused");
    assert_eq!(t.final_content("text", false, &Vec::new()), "⚠️ refused\n\ntext");
}

#[test]
fn dead_or_slow_agent_ends_the_turn() {
    let tick = |alive, secs| TurnInput::Tick { alive, elapsed: Duration::from_secs(secs) };
    let mut t = turn(false, false);
    assert_eq!(step(&mut t, tick(true, 60)), vec![]);
    assert!(!t.is_over());
    assert_eq!(step(&mut t, tick(true, 61)), vec![TurnStep::Abandon]);
    assert!(t.is_over());
    assert_eq!(
        t.final_content("", false, &Vec::new()),
        "⚠️ Agent exceeded hard timeout (60s)"
    );
    let mut t = turn(false, false);
    assert_eq!(step(&mut t, tick(false, 1)), vec![TurnStep::Abandon]);
    assert_eq!(t.final_content("", false, &Vec::new()), "⚠️ Agent process died");
}

#[test]
fn end_of_output_ends_the_turn() {
    let mut t = turn(false, false);
    assert_eq!(step(&mut t, TurnInput::Closed), vec![]);
    assert!(t.is_over());
    assert_eq!(t.final_content("", false, &Vec::new()), "_(no response)_");
    assert_eq!(t.final_content("", true, &Vec::new()), "");
    let warnings = vec!["one".to_string(), "two".to_string()];
    assert_eq!(t.final_content("", true, &warnings), "one\ntwo");
    assert_eq!(t.final_content("text", true, &warnings), "text\n\none\ntwo");
}

#[test]
fn lost_session_is_told() {
    assert_eq!(initial_content(false), "…");
    assert_eq!(initial_content(true), "⚠️ _Session expired, starting fresh..._\n\n…");
    let mut t = turn(false, true);
    event(&mut t, AcpEvent::Text("Hello".into()));
    assert_eq!(t.output().1, "⚠️ _Session expired, starting fresh..._\n\nHello");
}

#[test]
fn directives_are_read_off_the_text() {
    let mut t = turn(false, false);
    event(&mut t, AcpEvent::Text("[[reply_to:42]]\nHello".into()));
    let (directives, text) = t.output();
    assert_eq!(directives.reply_to.as_deref(), Some("42"));
    assert_eq!(text, "Hello");
}

fn delivery(streamed: bool, reply_to: Option<&str>, content: &str, attaching: bool) -> Delivery {
    Delivery::prepare(streamed, reply_to.map(|r| r.to_string()), content.into(), 3, attaching)
}

fn send(content: &str) -> DeliveryStep {
    DeliveryStep::Send { content: content.into() }
}

fn reply(content: &str) -> DeliveryStep {
    DeliveryStep::SendReply { content: content.into(), reply_to: "42".into() }
}

fn failed() -> Upload {
    Upload::Failed { error: "boom".into() }
}

const FAILURE: &str = "⚠️ Failed to send attachment: boom";

#[test]
fn text_without_a_post_is_sent() {
    let d = delivery(false, None, "abcdef", false);
    assert_eq!(d.first_steps(), vec![send("abc"), send("def")]);
    assert_eq!(d.last_steps(false, &Upload::Skipped), vec![]);
    let d = delivery(false, Some("42"), "abcdef", false);
    assert_eq!(d.first_steps(), vec![reply("abc"), send("def")]);
}

#[test]
fn text_goes_with_the_files_or_by_itself() {
    let d = delivery(false, Some("42"), "abcdef", true);
    assert_eq!(d.first_steps(), vec![]);
    assert_eq!(d.upload_with(), ("abc".to_string(), Some("42".to_string())));
    assert_eq!(d.last_steps(false, &Upload::Sent), vec![send("def")]);
    assert_eq!(
        d.last_steps(false, &failed()),
        vec![reply("abc"), send("def"), send(FAILURE)]
    );
    let d = delivery(false, None, "", true);
    assert_eq!(d.upload_with(), (String::new(), None));
    assert_eq!(d.last_steps(false, &Upload::Sent), vec![]);
}

#[test]
fn streamed_post_becomes_the_text() {
    let d = delivery(true, None, "abcdef", true);
    assert_eq!(
        d.first_steps(),
        vec![DeliveryStep::EditPost { content: "abcdef".into() }]
    );
    assert_eq!(d.upload_with(), (String::new(), None));
    assert_eq!(d.last_steps(false, &Upload::Sent), vec![]);
    assert_eq!(d.last_steps(false, &failed()), vec![send(FAILURE)]);
    let d = delivery(true, None, "", true);
    assert_eq!(d.first_steps(), vec![]);
    assert_eq!(d.last_steps(false, &Upload::Sent), vec![DeliveryStep::DeletePost]);
    assert_eq!(
        d.last_steps(false, &failed()),
        vec![DeliveryStep::EditPost { content: FAILURE.into() }]
    );
}

#[test]
fn streamed_post_stays_until_the_reply_is_sent() {
    let d = delivery(true, Some("42"), "abcdef", false);
    assert_eq!(d.first_steps(), vec![reply("abc"), send("def")]);
    assert_eq!(d.last_steps(true, &Upload::Skipped), vec![DeliveryStep::DeletePost]);
    assert_eq!(d.last_steps(false, &Upload::Skipped), vec![]);
    assert_eq!(
        d.last_steps(true, &failed()),
        vec![send(FAILURE), DeliveryStep::DeletePost]
    );
    let d = delivery(true, Some("42"), "", true);
    assert_eq!(d.upload_with(), (String::new(), Some("42".to_string())));
    assert_eq!(d.last_steps(false, &Upload::Sent), vec![DeliveryStep::DeletePost]);
    assert_eq!(
        d.last_steps(false, &failed()),
        vec![DeliveryStep::EditPost { content: FAILURE.into() }]
    );
}

fn msg(id: &str) -> MessageRef {
    MessageRef {
        channel: ChannelRef {
            platform: "mock".into(),
            channel_id: "C".into(),
            thread_id: None,
            parent_id: None,
            origin_event_id: None,
        },
        message_id: id.into(),
    }
}

fn told(steps: &[PostStep]) -> Vec<String> {
    steps
        .iter()
        .map(|s| match s {
            PostStep::Edit { message, content } => format!("edit {} {content}", message.message_id),
            PostStep::Send { content } => format!("send {content}"),
            PostStep::Delete { message } => format!("delete {}", message.message_id),
        })
        .collect()
}

#[test]
fn post_grows_and_shrinks_with_its_text() {
    let mut post = StreamingPost::new(msg("0").channel, msg("1"), "…".into(), 3);
    let plan = post.begin_edit("abcdef");
    assert_eq!(told(&plan.steps), vec!["edit 1 abc", "send def"]);
    post.end_edit(plan.kept, vec![msg("2")]);
    let plan = post.begin_edit("xyz");
    assert_eq!(told(&plan.steps), vec!["edit 1 xyz", "delete 2"]);
    post.end_edit(plan.kept, vec![]);
    assert_eq!(post.current_messages().len(), 1);
    let plan = post.begin_edit("");
    assert_eq!(told(&plan.steps), vec!["edit 1 \u{200b}"]);
}

#[test]
fn post_is_sent_anew_when_it_moves() {
    let mut post = StreamingPost::new(msg("0").channel, msg("1"), "abcd".into(), 3);
    let plan = post.begin_move();
    assert_eq!(plan.contents, vec!["abc", "d"]);
    assert_eq!(plan.superseded[0].message_id, "1");
    post.end_move(vec![msg("2"), msg("3")]);
    let ids: Vec<String> = post.current_messages().into_iter().map(|m| m.message_id).collect();
    assert_eq!(ids, vec!["2", "3"]);
    assert_eq!(post.thread_channel().channel_id, "C");
}

#[test]
fn late_leave_keeps_the_newer_post() {
    let mut posts = ActivePosts::new();
    let first = posts.enter("s");
    let second = posts.enter("s");
    posts.leave("s", first);
    assert_eq!(posts.get("s"), Some(second));
    posts.leave("s", second);
    assert_eq!(posts.get("s"), None);
}

#[test]
fn same_text_is_not_shown_again() {
    let mut gate = EditGate::new();
    assert!(gate.is_due("a"));
    assert!(!gate.is_due("a"));
    assert!(gate.is_due("b"));
}

#[test]
fn messages_break_behind_lines() {
    assert_eq!(split_message("ab\ncd", 4), vec!["ab\n", "cd"]);
    assert_eq!(split_message("abcdef", 4), vec!["abcd", "ef"]);
    assert!(split_message("", 4).is_empty());
    assert!(final_chunks("", 4).is_empty());
    assert_eq!(final_chunks("abcdef", 4), vec!["abcd", "ef"]);
}

#[test]
fn end_of_a_long_text_is_kept() {
    assert_eq!(truncate_chars_tail("abcdef", 3), "def");
    assert_eq!(truncate_chars_tail("ab", 3), "ab");
}

#[test]
fn tool_started_again_is_listed_once() {
    let mut t = turn(true, false);
    event(&mut t, start("1", "ls"));
    event(&mut t, done("1", "", "failed"));
    assert_eq!(
        event(&mut t, start("1", "ls -l")),
        vec![TurnStep::SetTool { title: "ls -l".into() }, show("🔧 `ls -l`...\n\n")]
    );
}

#[test]
fn text_of_a_turn_only_grows() {
    let mut t = turn(false, false);
    event(&mut t, AcpEvent::Text("One.".into()));
    step(&mut t, TurnInput::Response { id: 1, error: Some("late".into()) });
    event(&mut t, start("1", "ls"));
    event(&mut t, AcpEvent::Text("Two".into()));
    assert_eq!(t.output().1, "One.\nTwo");
}

#[test]
fn notification_with_an_id_is_a_response() {
    assert_eq!(
        input_of(Some(7), Some("no".into()), Some(AcpEvent::Thinking)),
        Some(TurnInput::Response { id: 7, error: Some("no".into()) })
    );
    assert_eq!(
        input_of(None, Some("no".into()), Some(AcpEvent::Thinking)),
        Some(TurnInput::Event { event: AcpEvent::Thinking })
    );
    assert_eq!(input_of(None, None, None), None);
}
