//! One record for each incoming message: what was decided on it, without what
//! it said.

use vstd::prelude::*;


verus! {

broadcast use vstd::seq_lib::group_seq_properties;

/// Names the form of a record.
pub const INGRESS_AUDIT_SCHEMA: &'static str = "openab.ingress-audit.v1";

/// What became of a message.
#[derive(Debug, Clone, Copy, PartialEq, Eq, Structural)]
pub enum IngressDecision {
    UnclassifiedDrop,
    Dispatched,
    Duplicate,
    UnsupportedEvent,
    UnsupportedSubtype,
    GuildDenied,
    ChannelDenied,
    UserDenied,
    BotPolicyDenied,
    BotUntrusted,
    BotTurnLimit,
    LoopCheckFailed,
    SelfMessage,
    MentionRequired,
    ThreadRequired,
    BotNotInvolved,
    MultiBotMentionRequired,
    EmptyContent,
    MalformedEvent,
    ThreadCreateFailed,
    DispatchFailed,
}

/// The name of a decision in records.
pub open spec fn decision_name(decision: IngressDecision) -> Seq<char> {
    match decision {
        IngressDecision::UnclassifiedDrop => "unclassified_drop"@,
        IngressDecision::Dispatched => "dispatched"@,
        IngressDecision::Duplicate => "duplicate"@,
        IngressDecision::UnsupportedEvent => "unsupported_event"@,
        IngressDecision::UnsupportedSubtype => "unsupported_subtype"@,
        IngressDecision::GuildDenied => "guild_denied"@,
        IngressDecision::ChannelDenied => "channel_denied"@,
        IngressDecision::UserDenied => "user_denied"@,
        IngressDecision::BotPolicyDenied => "bot_policy_denied"@,
        IngressDecision::BotUntrusted => "bot_untrusted"@,
        IngressDecision::BotTurnLimit => "bot_turn_limit"@,
        IngressDecision::LoopCheckFailed => "loop_check_failed"@,
        IngressDecision::SelfMessage => "self_message"@,
        IngressDecision::MentionRequired => "mention_required"@,
        IngressDecision::ThreadRequired => "thread_required"@,
        IngressDecision::BotNotInvolved => "bot_not_involved"@,
        IngressDecision::MultiBotMentionRequired => "multi_bot_mention_required"@,
        IngressDecision::EmptyContent => "empty_content"@,
        IngressDecision::MalformedEvent => "malformed_event"@,
        IngressDecision::ThreadCreateFailed => "thread_create_failed"@,
        IngressDecision::DispatchFailed => "dispatch_failed"@,
    }
}

impl IngressDecision {
    /// The name of the decision in records.
    pub fn as_str(self) -> (r: &'static str)
        ensures
            r@ == decision_name(self),
    {
        match self {
            IngressDecision::UnclassifiedDrop => "unclassified_drop",
            IngressDecision::Dispatched => "dispatched",
            IngressDecision::Duplicate => "duplicate",
            IngressDecision::UnsupportedEvent => "unsupported_event",
            IngressDecision::UnsupportedSubtype => "unsupported_subtype",
            IngressDecision::GuildDenied => "guild_denied",
            IngressDecision::ChannelDenied => "channel_denied",
            IngressDecision::UserDenied => "user_denied",
            IngressDecision::BotPolicyDenied => "bot_policy_denied",
            IngressDecision::BotUntrusted => "bot_untrusted",
            IngressDecision::BotTurnLimit => "bot_turn_limit",
            IngressDecision::LoopCheckFailed => "loop_check_failed",
            IngressDecision::SelfMessage => "self_message",
            IngressDecision::MentionRequired => "mention_required",
            IngressDecision::ThreadRequired => "thread_required",
            IngressDecision::BotNotInvolved => "bot_not_involved",
            IngressDecision::MultiBotMentionRequired => "multi_bot_mention_required",
            IngressDecision::EmptyContent => "empty_content",
            IngressDecision::MalformedEvent => "malformed_event",
            IngressDecision::ThreadCreateFailed => "thread_create_failed",
            IngressDecision::DispatchFailed => "dispatch_failed",
        }
    }
}

/// What is recorded of a message: where it came from, how large it was and what
/// was decided, never what it said.
#[derive(Debug, PartialEq, Eq)]
pub struct IngressAuditRecord {
    pub schema: &'static str,
    pub platform: &'static str,
    pub event_id: String,
    pub channel_id: String,
    pub thread_id: Option<String>,
    pub scope_id: Option<String>,
    pub sender_id: String,
    pub sender_is_bot: bool,
    pub event_timestamp: Option<String>,
    pub event_kind: String,
    pub content_chars: usize,
    pub attachment_count: usize,
    pub route_decision: IngressDecision,
}

/// The value of a field of a record.
#[derive(Debug, PartialEq, Eq)]
pub enum AuditValue {
    Text { text: String },
    Flag { flag: bool },
    Count { count: usize },
}

pub enum ValueView {
    Text { text: Seq<char> },
    Flag { flag: bool },
    Count { count: usize },
}

impl View for AuditValue {
    type V = ValueView;

    open spec fn view(&self) -> ValueView {
        match self {
            AuditValue::Text { text } => ValueView::Text { text: text@ },
            AuditValue::Flag { flag } => ValueView::Flag { flag: *flag },
            AuditValue::Count { count } => ValueView::Count { count: *count },
        }
    }
}

/// A field of a record.
#[derive(Debug, PartialEq, Eq)]
pub struct AuditField {
    pub name: &'static str,
    pub value: AuditValue,
}

pub open spec fn field_views(fields: Seq<AuditField>) -> Seq<(Seq<char>, ValueView)> {
    fields.map_values(|f: AuditField| (f.name@, f.value@))
}

pub open spec fn text_field(name: Seq<char>, text: Seq<char>) -> Seq<(Seq<char>, ValueView)> {
    seq![(name, ValueView::Text { text })]
}

/// A field that is left out where there is nothing to say.
pub open spec fn optional_field(name: Seq<char>, text: Option<Seq<char>>) -> Seq<
    (Seq<char>, ValueView),
> {
    match text {
        Some(text) => text_field(name, text),
        None => Seq::empty(),
    }
}

fn push_text(fields: &mut Vec<AuditField>, name: &'static str, text: &str)
    ensures
        field_views(final(fields)@) == field_views(old(fields)@) + text_field(name@, text@),
{
    let ghost before = fields@;
    fields.push(AuditField { name, value: AuditValue::Text { text: text.to_owned() } });
    assert(field_views(fields@) =~= field_views(before) + text_field(name@, text@));
}

fn push_optional(fields: &mut Vec<AuditField>, name: &'static str, text: &Option<String>)
    ensures
        field_views(final(fields)@) == field_views(old(fields)@) + optional_field(
            name@,
            crate::text::opt_text(*text),
        ),
{
    match text {
        Some(text) => push_text(fields, name, text.as_str()),
        None => {
            assert(field_views(fields@) + Seq::empty() =~= field_views(fields@));
        },
    }
}

fn push_value(fields: &mut Vec<AuditField>, name: &'static str, value: AuditValue)
    ensures
        field_views(final(fields)@) == field_views(old(fields)@) + seq![(name@, value@)],
{
    let ghost before = fields@;
    fields.push(AuditField { name, value });
    assert(field_views(fields@) =~= field_views(before) + seq![(name@, value@)]);
}

impl IngressAuditRecord {
    /// A record on which nothing has been decided.
    pub fn new(
        platform: &'static str,
        event_id: String,
        channel_id: String,
        thread_id: Option<String>,
        scope_id: Option<String>,
        sender_id: String,
        sender_is_bot: bool,
        event_timestamp: Option<String>,
        event_kind: String,
        content_chars: usize,
        attachment_count: usize,
    ) -> (r: Self)
        ensures
            r.schema@ == INGRESS_AUDIT_SCHEMA@,
            r == (IngressAuditRecord {
                schema: r.schema,
                platform,
                event_id,
                channel_id,
                thread_id,
                scope_id,
                sender_id,
                sender_is_bot,
                event_timestamp,
                event_kind,
                content_chars,
                attachment_count,
                route_decision: IngressDecision::UnclassifiedDrop,
            }),
    {
        IngressAuditRecord {
            schema: INGRESS_AUDIT_SCHEMA,
            platform,
            event_id,
            channel_id,
            thread_id,
            scope_id,
            sender_id,
            sender_is_bot,
            event_timestamp,
            event_kind,
            content_chars,
            attachment_count,
            route_decision: IngressDecision::UnclassifiedDrop,
        }
    }

    /// The fields of the record, in order. One without a value is left out.
    pub open spec fn field_list(&self) -> Seq<(Seq<char>, ValueView)> {
        text_field("schema"@, self.schema@) + text_field("platform"@, self.platform@) + text_field(
            "event_id"@,
            self.event_id@,
        ) + text_field("channel_id"@, self.channel_id@) + optional_field(
            "thread_id"@,
            crate::text::opt_text(self.thread_id),
        ) + optional_field("scope_id"@, crate::text::opt_text(self.scope_id)) + text_field(
            "sender_id"@,
            self.sender_id@,
        ) + seq![("sender_is_bot"@, ValueView::Flag { flag: self.sender_is_bot })]
            + optional_field("event_timestamp"@, crate::text::opt_text(self.event_timestamp))
            + text_field("event_kind"@, self.event_kind@) + seq![
            ("content_chars"@, ValueView::Count { count: self.content_chars }),
        ] + seq![("attachment_count"@, ValueView::Count { count: self.attachment_count })]
            + text_field("route_decision"@, decision_name(self.route_decision))
    }

    /// The fields of the record, in order.
    pub fn fields(&self) -> (r: Vec<AuditField>)
        ensures
            field_views(r@) == self.field_list(),
    {
        let mut out: Vec<AuditField> = Vec::new();
        assert(field_views(out@) + text_field("schema"@, self.schema@) =~= text_field(
            "schema"@,
            self.schema@,
        ));
        push_text(&mut out, "schema", self.schema);
        push_text(&mut out, "platform", self.platform);
        push_text(&mut out, "event_id", self.event_id.as_str());
        push_text(&mut out, "channel_id", self.channel_id.as_str());
        push_optional(&mut out, "thread_id", &self.thread_id);
        push_optional(&mut out, "scope_id", &self.scope_id);
        push_text(&mut out, "sender_id", self.sender_id.as_str());
        push_value(&mut out, "sender_is_bot", AuditValue::Flag { flag: self.sender_is_bot });
        push_optional(&mut out, "event_timestamp", &self.event_timestamp);
        push_text(&mut out, "event_kind", self.event_kind.as_str());
        push_value(&mut out, "content_chars", AuditValue::Count { count: self.content_chars });
        push_value(
            &mut out,
            "attachment_count",
            AuditValue::Count { count: self.attachment_count },
        );
        push_text(&mut out, "route_decision", self.route_decision.as_str());
        out
    }
}

/// The record of one message until it is decided on. It is handed out exactly
/// once: with the decision, or, where none was made, as an unclassified drop.
#[derive(Debug)]
pub struct IngressAuditGuard {
    record: Option<IngressAuditRecord>,
}

impl IngressAuditGuard {
    /// The record, until it is handed out.
    pub closed spec fn pending(&self) -> Option<IngressAuditRecord> {
        self.record
    }

    pub fn new(record: IngressAuditRecord) -> (r: Self)
        ensures
            r.pending() == Some(record),
    {
        IngressAuditGuard { record: Some(record) }
    }

    /// Notes the thread, as long as the record was not handed out.
    pub fn set_thread_id(&mut self, thread_id: Option<String>)
        ensures
            final(self).pending() == match old(self).pending() {
                Some(record) => Some(IngressAuditRecord { thread_id, ..record }),
                None => None,
            },
    {
        match self.record.take() {
            Some(record) => {
                let mut record = record;
                record.thread_id = thread_id;
                self.record = Some(record);
            },
            None => {},
        }
    }

    /// Decides on the message: the record to emit, if it was not emitted before.
    pub fn finish(&mut self, decision: IngressDecision) -> (r: Option<IngressAuditRecord>)
        ensures
            final(self).pending() is None,
            r == match old(self).pending() {
                Some(record) => Some(IngressAuditRecord { route_decision: decision, ..record }),
                None => None,
            },
            r == decided(old(self).pending(), decision),
    {
        match self.record.take() {
            Some(record) => {
                let mut record = record;
                record.route_decision = decision;
                Some(record)
            },
            None => None,
        }
    }

    /// The message is left without a decision: the record to emit, if it was not
    /// emitted before.
    pub fn close(&mut self) -> (r: Option<IngressAuditRecord>)
        ensures
            final(self).pending() is None,
            r == old(self).pending(),
    {
        self.record.take()
    }

    /// The fields of the record, until it is handed out.
    pub fn snapshot(&self) -> (r: Option<Vec<AuditField>>)
        ensures
            match r {
                Some(fields) => self.pending() is Some && field_views(fields@)
                    == self.pending()->0.field_list(),
                None => self.pending() is None,
            },
    {
        match &self.record {
            Some(record) => Some(record.fields()),
            None => None,
        }
    }
}

/// The record that goes out with a decision: none, if it went out before.
pub open spec fn decided(pending: Option<IngressAuditRecord>, decision: IngressDecision) -> Option<
    IngressAuditRecord,
> {
    match pending {
        Some(record) => Some(IngressAuditRecord { route_decision: decision, ..record }),
        None => None,
    }
}

/// A decision goes out with the record as it was noted, and only once.
pub proof fn lemma_decision_goes_out_once(record: IngressAuditRecord, decision: IngressDecision)
    ensures
        decided(None, decision) is None,
        decided(Some(record), decision) is Some,
        decided(Some(record), decision)->0.route_decision == decision,
        ({
            let out = decided(Some(record), decision)->0;
            &&& out.event_id == record.event_id
            &&& out.channel_id == record.channel_id
            &&& out.thread_id == record.thread_id
            &&& out.scope_id == record.scope_id
            &&& out.sender_id == record.sender_id
            &&& out.sender_is_bot == record.sender_is_bot
            &&& out.platform == record.platform
            &&& out.schema == record.schema
            &&& out.event_timestamp == record.event_timestamp
            &&& out.event_kind == record.event_kind
            &&& out.content_chars == record.content_chars
            &&& out.attachment_count == record.attachment_count
        }),
{
}

/// No record has a field under this name.
pub open spec fn never_recorded(name: Seq<char>) -> bool {
    forall|record: IngressAuditRecord, i: int|
        0 <= i < record.field_list().len() ==> (#[trigger] record.field_list()[i]).0 != name
}

/// Records hold metadata only: no content, no prompt and no token.
pub proof fn lemma_metadata_only()
    ensures
        never_recorded("content"@),
        never_recorded("prompt"@),
        never_recorded("token"@),
{
    reveal_strlit("content");
    reveal_strlit("prompt");
    reveal_strlit("token");
    reveal_strlit("schema");
    reveal_strlit("platform");
    reveal_strlit("event_id");
    reveal_strlit("channel_id");
    reveal_strlit("thread_id");
    reveal_strlit("scope_id");
    reveal_strlit("sender_id");
    reveal_strlit("sender_is_bot");
    reveal_strlit("event_timestamp");
    reveal_strlit("event_kind");
    reveal_strlit("content_chars");
    reveal_strlit("attachment_count");
    reveal_strlit("route_decision");
    assert forall|record: IngressAuditRecord, i: int|
        0 <= i < record.field_list().len() implies (#[trigger] record.field_list()[i]).0
        != "content"@ && record.field_list()[i].0 != "prompt"@ && record.field_list()[i].0
        != "token"@ by {
        assert("schema"@[0] == 's');
        assert("schema"@[1] == 'c');
        assert("platform"@[1] == 'l');
        assert("event_id"@[0] == 'e');
        assert("channel_id"@[1] == 'h');
        assert("thread_id"@[1] == 'h');
        assert("scope_id"@[0] == 's');
        assert("sender_id"@[0] == 's');
        assert("sender_is_bot"@[0] == 's');
        assert("event_timestamp"@[0] == 'e');
        assert("event_kind"@[0] == 'e');
        assert("content_chars"@.len() == 13);
        assert("content"@.len() == 7);
        assert("attachment_count"@[0] == 'a');
        assert("route_decision"@[0] == 'r');
        assert("content"@[0] == 'c' && "content"@[1] == 'o');
        assert("prompt"@[0] == 'p' && "prompt"@[1] == 'r');
        assert("token"@[0] == 't' && "token"@[1] == 'o');
    }
}

/// A record tells its decision, and names thread, scope and time exactly where
/// they are known.
pub proof fn lemma_record_tells_its_decision(record: IngressAuditRecord)
    ensures
        ({
            let fields = record.field_list();
            &&& fields[0] == ("schema"@, ValueView::Text { text: record.schema@ })
            &&& fields.last() == (
                "route_decision"@,
                ValueView::Text { text: decision_name(record.route_decision) },
            )
            &&& fields.contains(
                ("content_chars"@, ValueView::Count { count: record.content_chars }),
            )
            &&& fields.contains(
                ("sender_is_bot"@, ValueView::Flag { flag: record.sender_is_bot }),
            )
            &&& fields.contains(("event_id"@, ValueView::Text { text: record.event_id@ }))
            &&& fields.contains(("channel_id"@, ValueView::Text { text: record.channel_id@ }))
            &&& fields.contains(("sender_id"@, ValueView::Text { text: record.sender_id@ }))
            &&& record.thread_id is Some ==> fields.contains(
                ("thread_id"@, ValueView::Text { text: record.thread_id->0@ }),
            )
            &&& fields.len() == 10 + (if record.thread_id is Some {
                1int
            } else {
                0
            }) + (if record.scope_id is Some {
                1int
            } else {
                0
            }) + (if record.event_timestamp is Some {
                1int
            } else {
                0
            })
        }),
{
    let fields = record.field_list();
    let t = if record.thread_id is Some {
        1int
    } else {
        0
    };
    let s = if record.scope_id is Some {
        1int
    } else {
        0
    };
    let e = if record.event_timestamp is Some {
        1int
    } else {
        0
    };
    assert(fields[2].0 == "event_id"@);
    assert(fields[3].0 == "channel_id"@);
    if t == 1 {
        assert(fields[4].0 == "thread_id"@);
    }
    assert(fields[4 + t + s].0 == "sender_id"@);
    assert(fields[5 + t + s].0 == "sender_is_bot"@);
    assert(fields[7 + t + s + e].0 == "content_chars"@);
}

/// Each decision has a name of its own: a record tells what was decided.
pub proof fn lemma_decisions_are_told_apart(a: IngressDecision, b: IngressDecision)
    ensures
        decision_name(a) == decision_name(b) ==> a == b,
        decision_name(IngressDecision::Dispatched) == "dispatched"@,
        decision_name(IngressDecision::UnclassifiedDrop) == "unclassified_drop"@,
        INGRESS_AUDIT_SCHEMA@ == "openab.ingress-audit.v1"@,
{
    reveal_strlit("unclassified_drop");
    reveal_strlit("dispatched");
    reveal_strlit("duplicate");
    reveal_strlit("unsupported_event");
    reveal_strlit("unsupported_subtype");
    reveal_strlit("guild_denied");
    reveal_strlit("channel_denied");
    reveal_strlit("user_denied");
    reveal_strlit("bot_policy_denied");
    reveal_strlit("bot_untrusted");
    reveal_strlit("bot_turn_limit");
    reveal_strlit("loop_check_failed");
    reveal_strlit("self_message");
    reveal_strlit("mention_required");
    reveal_strlit("thread_required");
    reveal_strlit("bot_not_involved");
    reveal_strlit("multi_bot_mention_required");
    reveal_strlit("empty_content");
    reveal_strlit("malformed_event");
    reveal_strlit("thread_create_failed");
    reveal_strlit("dispatch_failed");
    assert(decision_name(IngressDecision::UnclassifiedDrop).len() == 17 && decision_name(IngressDecision::UnclassifiedDrop)[0] == 'u' && decision_name(IngressDecision::UnclassifiedDrop)[2] == 'c');
    assert(decision_name(IngressDecision::Dispatched).len() == 10 && decision_name(IngressDecision::Dispatched)[0] == 'd' && decision_name(IngressDecision::Dispatched)[2] == 's');
    assert(decision_name(IngressDecision::Duplicate).len() == 9 && decision_name(IngressDecision::Duplicate)[0] == 'd' && decision_name(IngressDecision::Duplicate)[2] == 'p');
    assert(decision_name(IngressDecision::UnsupportedEvent).len() == 17 && decision_name(IngressDecision::UnsupportedEvent)[0] == 'u' && decision_name(IngressDecision::UnsupportedEvent)[2] == 's');
    assert(decision_name(IngressDecision::UnsupportedSubtype).len() == 19 && decision_name(IngressDecision::UnsupportedSubtype)[0] == 'u' && decision_name(IngressDecision::UnsupportedSubtype)[2] == 's');
    assert(decision_name(IngressDecision::GuildDenied).len() == 12 && decision_name(IngressDecision::GuildDenied)[0] == 'g' && decision_name(IngressDecision::GuildDenied)[2] == 'i');
    assert(decision_name(IngressDecision::ChannelDenied).len() == 14 && decision_name(IngressDecision::ChannelDenied)[0] == 'c' && decision_name(IngressDecision::ChannelDenied)[2] == 'a');
    assert(decision_name(IngressDecision::UserDenied).len() == 11 && decision_name(IngressDecision::UserDenied)[0] == 'u' && decision_name(IngressDecision::UserDenied)[2] == 'e');
    assert(decision_name(IngressDecision::BotPolicyDenied).len() == 17 && decision_name(IngressDecision::BotPolicyDenied)[0] == 'b' && decision_name(IngressDecision::BotPolicyDenied)[2] == 't');
    assert(decision_name(IngressDecision::BotUntrusted).len() == 13 && decision_name(IngressDecision::BotUntrusted)[0] == 'b' && decision_name(IngressDecision::BotUntrusted)[2] == 't');
    assert(decision_name(IngressDecision::BotTurnLimit).len() == 14 && decision_name(IngressDecision::BotTurnLimit)[0] == 'b' && decision_name(IngressDecision::BotTurnLimit)[2] == 't');
    assert(decision_name(IngressDecision::LoopCheckFailed).len() == 17 && decision_name(IngressDecision::LoopCheckFailed)[0] == 'l' && decision_name(IngressDecision::LoopCheckFailed)[2] == 'o');
    assert(decision_name(IngressDecision::SelfMessage).len() == 12 && decision_name(IngressDecision::SelfMessage)[0] == 's' && decision_name(IngressDecision::SelfMessage)[2] == 'l');
    assert(decision_name(IngressDecision::MentionRequired).len() == 16 && decision_name(IngressDecision::MentionRequired)[0] == 'm' && decision_name(IngressDecision::MentionRequired)[2] == 'n');
    assert(decision_name(IngressDecision::ThreadRequired).len() == 15 && decision_name(IngressDecision::ThreadRequired)[0] == 't' && decision_name(IngressDecision::ThreadRequired)[2] == 'r');
    assert(decision_name(IngressDecision::BotNotInvolved).len() == 16 && decision_name(IngressDecision::BotNotInvolved)[0] == 'b' && decision_name(IngressDecision::BotNotInvolved)[2] == 't');
    assert(decision_name(IngressDecision::MultiBotMentionRequired).len() == 26 && decision_name(IngressDecision::MultiBotMentionRequired)[0] == 'm' && decision_name(IngressDecision::MultiBotMentionRequired)[2] == 'l');
    assert(decision_name(IngressDecision::EmptyContent).len() == 13 && decision_name(IngressDecision::EmptyContent)[0] == 'e' && decision_name(IngressDecision::EmptyContent)[2] == 'p');
    assert(decision_name(IngressDecision::MalformedEvent).len() == 15 && decision_name(IngressDecision::MalformedEvent)[0] == 'm' && decision_name(IngressDecision::MalformedEvent)[2] == 'l');
    assert(decision_name(IngressDecision::ThreadCreateFailed).len() == 20 && decision_name(IngressDecision::ThreadCreateFailed)[0] == 't' && decision_name(IngressDecision::ThreadCreateFailed)[2] == 'r');
    assert(decision_name(IngressDecision::DispatchFailed).len() == 15 && decision_name(IngressDecision::DispatchFailed)[0] == 'd' && decision_name(IngressDecision::DispatchFailed)[2] == 's');
}

} // verus!
