use openab::ingress_audit::{
    AuditValue, IngressAuditGuard, IngressAuditRecord, IngressDecision, INGRESS_AUDIT_SCHEMA,
};

fn value<'a>(fields: &'a [openab::ingress_audit::AuditField], name: &str) -> Option<&'a AuditValue> {
    fields.iter().find(|f| f.name == name).map(|f| &f.value)
}

fn text(text: &str) -> AuditValue {
    AuditValue::Text { text: text.to_string() }
}

fn slack_record() -> IngressAuditRecord {
    IngressAuditRecord::new(
        "slack",
        "event-1".into(),
        "channel-1".into(),
        None,
        None,
        "sender-1".into(),
        false,
        None,
        "message".into(),
        0,
        0,
    )
}

#[test]
fn audit_record_is_metadata_only_and_uses_stable_schema() {
    let mut record = IngressAuditRecord::new(
        "discord",
        "message-1".into(),
        "channel-1".into(),
        Some("thread-1".into()),
        Some("guild-1".into()),
        "sender-1".into(),
        true,
        Some("2026-07-22T14:00:00Z".into()),
        "message".into(),
        19,
        2,
    );
    assert_eq!(record.route_decision, IngressDecision::UnclassifiedDrop);
    record.route_decision = IngressDecision::BotPolicyDenied;

    let fields = record.fields();
    assert_eq!(value(&fields, "schema"), Some(&text(INGRESS_AUDIT_SCHEMA)));
    assert_eq!(value(&fields, "route_decision"), Some(&text("bot_policy_denied")));
    assert_eq!(IngressDecision::BotPolicyDenied.as_str(), "bot_policy_denied");
    assert_eq!(value(&fields, "content_chars"), Some(&AuditValue::Count { count: 19 }));
    assert_eq!(value(&fields, "sender_is_bot"), Some(&AuditValue::Flag { flag: true }));
    assert!(value(&fields, "content").is_none());
    assert!(value(&fields, "prompt").is_none());
    assert!(value(&fields, "token").is_none());
    assert_eq!(fields.len(), 13);
}

#[test]
fn guard_accepts_only_one_terminal_decision() {
    let mut guard = IngressAuditGuard::new(slack_record());
    let first = guard.finish(IngressDecision::Dispatched);
    assert_eq!(first.unwrap().route_decision, IngressDecision::Dispatched);
    assert!(guard.finish(IngressDecision::DispatchFailed).is_none());
    assert!(guard.snapshot().is_none());
    assert!(guard.close().is_none());
}

#[test]
fn undecided_message_is_an_unclassified_drop() {
    let mut guard = IngressAuditGuard::new(slack_record());
    guard.set_thread_id(Some("T1".into()));
    assert_eq!(value(&guard.snapshot().unwrap(), "thread_id"), Some(&text("T1")));
    let record = guard.close().unwrap();
    assert_eq!(record.route_decision, IngressDecision::UnclassifiedDrop);
    assert_eq!(record.thread_id.as_deref(), Some("T1"));
    assert_eq!(record.schema, INGRESS_AUDIT_SCHEMA);
}

#[test]
fn fields_without_a_value_are_left_out() {
    let fields = slack_record().fields();
    assert_eq!(fields.len(), 10);
    assert!(value(&fields, "thread_id").is_none());
    assert!(value(&fields, "scope_id").is_none());
    assert!(value(&fields, "event_timestamp").is_none());
}
