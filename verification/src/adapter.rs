//! Channels and messages across platforms, and the rules by which messages are
//! routed to agents.

use vstd::prelude::*;

use crate::acp::ContentBlock;
use crate::attachments::OutboundAttachments;
use crate::config::{AttachmentsConfig, ReactionsConfig};
use crate::posts::ActivePosts;
use crate::text::{copy_opt, same_opt};
use crate::time::Duration;
use crate::turn::{SteerSeparators, Turn, TurnInput, TurnStep};

verus! {

broadcast use vstd::seq_lib::group_seq_properties;

/// Identifies a channel or thread across platforms, for routing: `channel_id`
/// is what messages are sent to.
#[derive(Debug)]
pub struct ChannelRef {
    pub platform: String,
    pub channel_id: String,
    /// The thread within the channel, where the platform has threads there.
    pub thread_id: Option<String>,
    /// The parent channel of a thread that is a channel of its own.
    pub parent_id: Option<String>,
    /// The event that the channel came with. It does not count for equality.
    pub origin_event_id: Option<String>,
}

pub struct ChannelView {
    pub platform: Seq<char>,
    pub channel_id: Seq<char>,
    pub thread_id: Option<Seq<char>>,
    pub parent_id: Option<Seq<char>>,
    pub origin_event_id: Option<Seq<char>>,
}

impl View for ChannelRef {
    type V = ChannelView;

    open spec fn view(&self) -> ChannelView {
        ChannelView {
            platform: self.platform@,
            channel_id: self.channel_id@,
            thread_id: crate::text::opt_text(self.thread_id),
            parent_id: crate::text::opt_text(self.parent_id),
            origin_event_id: crate::text::opt_text(self.origin_event_id),
        }
    }
}

/// The same channel, whichever event it came with.
pub open spec fn same_channel(a: ChannelView, b: ChannelView) -> bool {
    &&& a.platform == b.platform
    &&& a.channel_id == b.channel_id
    &&& a.thread_id == b.thread_id
    &&& a.parent_id == b.parent_id
}

impl PartialEq for ChannelRef {
    fn eq(&self, other: &Self) -> (r: bool) {
        self.platform == other.platform && self.channel_id == other.channel_id && same_opt(
            &self.thread_id,
            &other.thread_id,
        ) && same_opt(&self.parent_id, &other.parent_id)
    }
}

impl vstd::std_specs::cmp::PartialEqSpecImpl for ChannelRef {
    open spec fn obeys_eq_spec() -> bool {
        true
    }

    open spec fn eq_spec(&self, other: &Self) -> bool {
        same_channel(self@, other@)
    }
}

impl Eq for ChannelRef {

}

/// `String`'s `Hash::hash` feeds the text to the hasher. What a hasher makes of
/// it is the hasher's affair, so nothing is claimed.
pub assume_specification<H: std::hash::Hasher>[ <String as std::hash::Hash>::hash ](
    text: &String,
    state: &mut H,
);

/// `Option`'s `Hash::hash` feeds the variant and what it holds to the hasher.
/// What a hasher makes of it is the hasher's affair, so nothing is claimed.
pub assume_specification<
    T: std::hash::Hash,
    __H: std::hash::Hasher,
>[ <Option<T> as std::hash::Hash>::hash ](value: &Option<T>, state: &mut __H);

/// What a channel is known by: everything but the event that it came with.
pub open spec fn channel_parts(c: ChannelView) -> (
    Seq<char>,
    Seq<char>,
    Option<Seq<char>>,
    Option<Seq<char>>,
) {
    (c.platform, c.channel_id, c.thread_id, c.parent_id)
}

/// Equal channels, and only those, have the same parts, so that equal channels
/// have the same hash.
pub proof fn lemma_hash_agrees_with_equality(a: ChannelView, b: ChannelView)
    ensures
        same_channel(a, b) <==> channel_parts(a) == channel_parts(b),
{
}

impl ChannelRef {
    /// The parts that are fed to a hasher, in order.
    pub fn hash_parts(&self) -> (r: (&String, &String, &Option<String>, &Option<String>))
        ensures
            (r.0@, r.1@, crate::text::opt_text(*r.2), crate::text::opt_text(*r.3))
                == channel_parts(self@),
    {
        (&self.platform, &self.channel_id, &self.thread_id, &self.parent_id)
    }
}

impl std::hash::Hash for ChannelRef {
    fn hash<H: std::hash::Hasher>(&self, state: &mut H) {
        let (platform, channel_id, thread_id, parent_id) = self.hash_parts();
        platform.hash(state);
        channel_id.hash(state);
        thread_id.hash(state);
        parent_id.hash(state);
    }
}

impl Clone for ChannelRef {
    fn clone(&self) -> (r: Self)
        ensures
            r@ == self@,
    {
        ChannelRef {
            platform: self.platform.clone(),
            channel_id: self.channel_id.clone(),
            thread_id: copy_opt(&self.thread_id),
            parent_id: copy_opt(&self.parent_id),
            origin_event_id: copy_opt(&self.origin_event_id),
        }
    }
}

/// Identifies a message across platforms.
#[derive(Debug)]
pub struct MessageRef {
    pub channel: ChannelRef,
    pub message_id: String,
}

pub struct RefView {
    pub channel: ChannelView,
    pub message_id: Seq<char>,
}

impl View for MessageRef {
    type V = RefView;

    open spec fn view(&self) -> RefView {
        RefView { channel: self.channel@, message_id: self.message_id@ }
    }
}

impl Clone for MessageRef {
    fn clone(&self) -> (r: Self)
        ensures
            r@ == self@,
    {
        MessageRef { channel: self.channel.clone(), message_id: self.message_id.clone() }
    }
}

/// What comes with an incoming message.
#[derive(Debug)]
pub struct MessageContext {
    pub thread_channel: ChannelRef,
    pub sender_json: String,
    pub prompt: String,
    pub extra_blocks: Vec<ContentBlock>,
    pub trigger_msg: MessageRef,
    pub other_bot_present: bool,
}

/// Who sent a message, for the agent: `channel_id` is always the parent channel
/// and `thread_id` the thread, on every platform.
#[derive(Debug)]
pub struct SenderContext {
    pub schema: String,
    pub sender_id: String,
    pub sender_name: String,
    pub display_name: String,
    pub channel: String,
    pub channel_id: String,
    pub thread_id: Option<String>,
    pub is_bot: bool,
    /// When the message was created, if known.
    pub timestamp: Option<String>,
    /// The id to name in a `reply_to` directive.
    pub message_id: Option<String>,
    /// The user id of the bot that receives the message.
    pub receiver_id: Option<String>,
}

pub struct SenderView {
    pub schema: Seq<char>,
    pub sender_id: Seq<char>,
    pub sender_name: Seq<char>,
    pub display_name: Seq<char>,
    pub channel: Seq<char>,
    pub channel_id: Seq<char>,
    pub thread_id: Option<Seq<char>>,
    pub is_bot: bool,
    pub timestamp: Option<Seq<char>>,
    pub message_id: Option<Seq<char>>,
    pub receiver_id: Option<Seq<char>>,
}

impl View for SenderContext {
    type V = SenderView;

    open spec fn view(&self) -> SenderView {
        SenderView {
            schema: self.schema@,
            sender_id: self.sender_id@,
            sender_name: self.sender_name@,
            display_name: self.display_name@,
            channel: self.channel@,
            channel_id: self.channel_id@,
            thread_id: crate::text::opt_text(self.thread_id),
            is_bot: self.is_bot,
            timestamp: crate::text::opt_text(self.timestamp),
            message_id: crate::text::opt_text(self.message_id),
            receiver_id: crate::text::opt_text(self.receiver_id),
        }
    }
}

impl Clone for SenderContext {
    fn clone(&self) -> (r: Self)
        ensures
            r@ == self@,
    {
        SenderContext {
            schema: self.schema.clone(),
            sender_id: self.sender_id.clone(),
            sender_name: self.sender_name.clone(),
            display_name: self.display_name.clone(),
            channel: self.channel.clone(),
            channel_id: self.channel_id.clone(),
            thread_id: copy_opt(&self.thread_id),
            is_bot: self.is_bot,
            timestamp: copy_opt(&self.timestamp),
            message_id: copy_opt(&self.message_id),
            receiver_id: copy_opt(&self.receiver_id),
        }
    }
}

/// What a platform's adapter says of itself.
pub trait ChatAdapter: Send + Sync + 'static {
    /// The platform's name, for sessions and logs.
    fn platform(&self) -> &'static str;

    /// The longest message that the platform takes, in characters.
    fn message_limit(&self) -> usize;

    /// Whether a turn is streamed by edits. Where another bot writes in the
    /// thread, edits would interfere.
    fn use_streaming(&self, other_bot_present: bool) -> bool;
}

// ---------------------------------------------------------------------------
// Packing
// ---------------------------------------------------------------------------

/// The blocks that are texts, or those that are not, in order.
pub open spec fn only(blocks: Seq<crate::acp::BlockView>, text: bool) -> Seq<crate::acp::BlockView>
    decreases blocks.len(),
{
    if blocks.len() == 0 {
        Seq::empty()
    } else {
        let front = only(blocks.drop_last(), text);
        if (blocks.last() is Text) == text {
            front.push(blocks.last())
        } else {
            front
        }
    }
}

/// The block that sets off an arrival from the one before.
pub open spec fn sender_block(sender_json: Seq<char>) -> crate::acp::BlockView {
    crate::acp::BlockView::Text {
        text: "<sender_context>\n"@ + sender_json + "\n</sender_context>\n\n"@,
    }
}

/// An arrival as blocks: the sender, the texts that came along, what was typed,
/// then everything else.
pub open spec fn packed(
    sender_json: Seq<char>,
    prompt: Seq<char>,
    extra: Seq<crate::acp::BlockView>,
) -> Seq<crate::acp::BlockView> {
    seq![sender_block(sender_json)] + only(extra, true) + (if prompt.len() > 0 {
        seq![crate::acp::BlockView::Text { text: prompt }]
    } else {
        Seq::empty()
    }) + only(extra, false)
}

fn push_only(out: &mut Vec<ContentBlock>, blocks: &Vec<ContentBlock>, text: bool)
    ensures
        crate::acp::block_views(final(out)@) == crate::acp::block_views(old(out)@) + only(
            crate::acp::block_views(blocks@),
            text,
        ),
{
    let ghost start = crate::acp::block_views(out@);
    let ghost all = crate::acp::block_views(blocks@);
    let mut i: usize = 0;
    assert(all.take(0) =~= Seq::empty());
    assert(start + Seq::empty() =~= start);
    while i < blocks.len()
        invariant
            i <= blocks@.len(),
            all == crate::acp::block_views(blocks@),
            crate::acp::block_views(out@) == start + only(all.take(i as int), text),
        decreases blocks.len() - i,
    {
        assert(all.take(i + 1).drop_last() =~= all.take(i as int));
        assert(all[i as int] == blocks@[i as int]@);
        let is_text = match &blocks[i] {
            ContentBlock::Text { .. } => true,
            ContentBlock::Image { .. } => false,
        };
        if is_text == text {
            let ghost before = out@;
            out.push(blocks[i].clone());
            assert(crate::acp::block_views(out@) =~= crate::acp::block_views(before).push(
                all[i as int],
            ));
            assert(crate::acp::block_views(out@) =~= start + only(all.take(i + 1), text));
        }
        i += 1;
    }
    assert(all.take(all.len() as int) =~= all);
}

/// Nothing that came along is lost in packing, and the parts stand in order:
/// the sender alone, the texts, what was typed, the rest.
pub proof fn lemma_packing_keeps_everything(
    sender_json: Seq<char>,
    prompt: Seq<char>,
    extra: Seq<crate::acp::BlockView>,
)
    ensures
        packed(sender_json, prompt, extra).len() == 1 + extra.len() + if prompt.len() > 0 {
            1int
        } else {
            0
        },
        packed(sender_json, prompt, extra)[0] == sender_block(sender_json),
        forall|i: int|
            0 <= i < extra.len() ==> packed(sender_json, prompt, extra).contains(
                #[trigger] extra[i],
            ),
{
    lemma_only(extra);
    let all = packed(sender_json, prompt, extra);
    let texts = only(extra, true);
    let rest = only(extra, false);
    let typed = all.len() - rest.len();
    assert forall|i: int| 0 <= i < extra.len() implies all.contains(#[trigger] extra[i]) by {
        if extra[i] is Text {
            assert(texts.contains(extra[i]));
            let k = choose|k: int| 0 <= k < texts.len() && texts[k] == extra[i];
            assert(all[k + 1] == extra[i]);
        } else {
            assert(rest.contains(extra[i]));
            let k = choose|k: int| 0 <= k < rest.len() && rest[k] == extra[i];
            assert(all[typed + k] == extra[i]);
        }
    }
}

proof fn lemma_only(blocks: Seq<crate::acp::BlockView>)
    ensures
        only(blocks, true).len() + only(blocks, false).len() == blocks.len(),
        forall|i: int|
            0 <= i < blocks.len() ==> only(blocks, (#[trigger] blocks[i]) is Text).contains(
                blocks[i],
            ),
    decreases blocks.len(),
{
    if blocks.len() > 0 {
        let shorter = blocks.drop_last();
        lemma_only(shorter);
        assert forall|i: int| 0 <= i < blocks.len() implies only(
            blocks,
            (#[trigger] blocks[i]) is Text,
        ).contains(blocks[i]) by {
            let kind = blocks[i] is Text;
            let all = only(blocks, kind);
            if i < shorter.len() {
                assert(shorter[i] == blocks[i]);
                let front = only(shorter, kind);
                assert(front.contains(blocks[i]));
                let k = choose|k: int| 0 <= k < front.len() && front[k] == blocks[i];
                assert(all[k] == blocks[i]);
            } else {
                assert(all[all.len() - 1] == blocks[i]);
            }
        }
    }
}

// ---------------------------------------------------------------------------
// Routing
// ---------------------------------------------------------------------------

/// The session of a thread: its platform and the thread, or the channel where
/// there is no thread.
pub open spec fn session_key(platform: Seq<char>, channel: ChannelView) -> Seq<char> {
    platform + ":"@ + match channel.thread_id {
        Some(thread) => thread,
        None => channel.channel_id,
    }
}

/// The session of a thread.
pub fn thread_key(platform: &str, channel: &ChannelRef) -> (r: String)
    ensures
        r@ == session_key(platform@, channel@),
{
    let mut out = platform.to_owned();
    out.push_str(":");
    match &channel.thread_id {
        Some(thread) => out.push_str(thread.as_str()),
        None => out.push_str(channel.channel_id.as_str()),
    }
    out
}

/// On one platform, two threads never share a session.
pub proof fn lemma_threads_have_their_own_session(
    platform: Seq<char>,
    a: ChannelView,
    b: ChannelView,
)
    requires
        a.thread_id is Some,
        b.thread_id is Some,
    ensures
        session_key(platform, a) == session_key(platform, b) <==> a.thread_id == b.thread_id,
{
    let start = platform + ":"@;
    let x = a.thread_id->0;
    let y = b.thread_id->0;
    assert((start + x).skip(start.len() as int) =~= x);
    assert((start + y).skip(start.len() as int) =~= y);
}

/// A text for the user that something went wrong.
pub open spec fn user_error(error: Seq<char>) -> Seq<char> {
    "⚠️ "@ + error
}

/// A text for the user that something went wrong.
pub fn user_error_text(error: &str) -> (r: String)
    ensures
        r@ == user_error(error@),
{
    let mut out = "⚠️ ".to_owned();
    out.push_str(error);
    out
}

/// What is done when a message has been handled.
#[derive(Debug)]
pub struct Conclusion {
    /// React as done rather than as failed.
    pub done: bool,
    /// Take the reaction away after so many milliseconds.
    pub clear_after_ms: Option<u64>,
    /// Tell the thread of the error.
    pub message: Option<String>,
}

pub struct ConclusionView {
    pub done: bool,
    pub clear_after_ms: Option<u64>,
    pub message: Option<Seq<char>>,
}

impl View for Conclusion {
    type V = ConclusionView;

    open spec fn view(&self) -> ConclusionView {
        ConclusionView {
            done: self.done,
            clear_after_ms: self.clear_after_ms,
            message: crate::text::opt_text(self.message),
        }
    }
}

/// What is done when a message has been handled, given the error if it failed.
pub open spec fn conclusion(config: ReactionsConfig, error: Option<Seq<char>>) -> ConclusionView {
    ConclusionView {
        done: error is None,
        clear_after_ms: if !config.remove_after_reply {
            None
        } else if error is None {
            Some(config.timing.done_hold_ms)
        } else {
            Some(config.timing.error_hold_ms)
        },
        message: match error {
            Some(e) => Some(user_error(e)),
            None => None,
        },
    }
}

/// A message that was handled is marked done and nothing more is said; one that
/// failed is marked so, and the thread is told why. Where marks are to be taken
/// away, each stays as long as is configured for it; else they stay.
pub proof fn lemma_what_concludes_a_message(config: ReactionsConfig, error: Seq<char>)
    ensures
        conclusion(config, None).done && conclusion(config, None).message is None,
        !conclusion(config, Some(error)).done,
        conclusion(config, Some(error)).message == Some("⚠️ "@ + error),
        config.remove_after_reply ==> conclusion(config, None).clear_after_ms == Some(
            config.timing.done_hold_ms,
        ) && conclusion(config, Some(error)).clear_after_ms == Some(config.timing.error_hold_ms),
        !config.remove_after_reply ==> conclusion(config, None).clear_after_ms is None
            && conclusion(config, Some(error)).clear_after_ms is None,
{
}

/// Routes messages to agents: the rules that every platform shares.
pub struct AdapterRouter {
    reactions_config: ReactionsConfig,
    prompt_hard_timeout: Duration,
    liveness_check_interval: Duration,
    /// The sessions whose next text starts a new section.
    pending_steer_separators: SteerSeparators,
    /// The posts into which sessions stream.
    active_posts: ActivePosts,
    outbound_attachments: OutboundAttachments,
}

impl AdapterRouter {
    pub closed spec fn config(&self) -> ReactionsConfig {
        self.reactions_config
    }

    pub closed spec fn hard_timeout(&self) -> Duration {
        self.prompt_hard_timeout
    }

    pub closed spec fn liveness_interval(&self) -> Duration {
        self.liveness_check_interval
    }

    pub closed spec fn attachments(&self) -> OutboundAttachments {
        self.outbound_attachments
    }

    /// The sessions whose next text starts a new section.
    pub closed spec fn separators(&self) -> Set<Seq<char>> {
        self.pending_steer_separators.pending()
    }

    /// The token of the post that each session streams into.
    pub closed spec fn posts(&self) -> Map<Seq<char>, u64> {
        self.active_posts.posts()
    }

    /// The token that the next post gets.
    pub closed spec fn next_post(&self) -> u64 {
        self.active_posts.next()
    }

    pub fn new(
        reactions_config: ReactionsConfig,
        prompt_hard_timeout_secs: u64,
        liveness_check_secs: u64,
        attachments_config: AttachmentsConfig,
        agent_working_dir: String,
    ) -> (r: Self)
        ensures
            r.config() == reactions_config,
            r.hard_timeout() == (Duration { secs: prompt_hard_timeout_secs, nanos: 0 }),
            r.liveness_interval() == (Duration { secs: liveness_check_secs, nanos: 0 }),
            r.separators() == Set::<Seq<char>>::empty(),
            r.posts() == Map::<Seq<char>, u64>::empty(),
            r.attachments().enabled() == attachments_config.enabled,
            r.attachments().max_bytes() == attachments_config.max_bytes,
            r.attachments().max_files() == attachments_config.max_files,
            r.attachments().working_dir() == agent_working_dir@,
            r.attachments().allowed_dirs() == if attachments_config.allowed_dirs@.len() == 0 {
                seq![agent_working_dir@]
            } else {
                crate::text::texts(attachments_config.allowed_dirs@)
            },
    {
        AdapterRouter {
            reactions_config,
            prompt_hard_timeout: Duration::from_secs(prompt_hard_timeout_secs),
            liveness_check_interval: Duration::from_secs(liveness_check_secs),
            pending_steer_separators: SteerSeparators::new(),
            active_posts: ActivePosts::new(),
            outbound_attachments: OutboundAttachments::new(attachments_config, agent_working_dir),
        }
    }

    /// Whether the hard timeout may be bypassed, because it is only looked at
    /// once per liveness interval.
    pub fn timeout_may_be_bypassed(&self) -> (r: bool)
        ensures
            r == (self.liveness_interval().secs >= self.hard_timeout().secs),
    {
        self.liveness_check_interval.as_secs() >= self.prompt_hard_timeout.as_secs()
    }

    pub fn reactions_config(&self) -> (r: &ReactionsConfig)
        ensures
            *r == self.config(),
    {
        &self.reactions_config
    }

    pub fn prompt_hard_timeout(&self) -> (r: Duration)
        ensures
            r == self.hard_timeout(),
    {
        self.prompt_hard_timeout
    }

    pub fn liveness_check_interval(&self) -> (r: Duration)
        ensures
            r == self.liveness_interval(),
    {
        self.liveness_check_interval
    }

    pub fn outbound_attachments(&self) -> (r: &OutboundAttachments)
        ensures
            *r == self.attachments(),
    {
        &self.outbound_attachments
    }

    /// Packs one arrival into blocks. The sender's block stands alone, so that
    /// it sets off one arrival from the next in a batch.
    pub fn pack_arrival_event(sender_json: &str, prompt: &str, extra_blocks: Vec<ContentBlock>) -> (r:
        Vec<ContentBlock>)
        ensures
            crate::acp::block_views(r@) == packed(
                sender_json@,
                prompt@,
                crate::acp::block_views(extra_blocks@),
            ),
    {
        let ghost extra = crate::acp::block_views(extra_blocks@);
        let mut header = "<sender_context>\n".to_owned();
        header.push_str(sender_json);
        header.push_str("\n</sender_context>\n\n");
        let mut blocks: Vec<ContentBlock> = Vec::new();
        blocks.push(ContentBlock::Text { text: header });
        assert(crate::acp::block_views(blocks@) =~= seq![sender_block(sender_json@)]);
        push_only(&mut blocks, &extra_blocks, true);
        let ghost before = blocks@;
        if !prompt.is_empty() {
            blocks.push(ContentBlock::Text { text: prompt.to_owned() });
            assert(crate::acp::block_views(blocks@) =~= crate::acp::block_views(before) + seq![
                crate::acp::BlockView::Text { text: prompt@ },
            ]);
        } else {
            assert(crate::acp::block_views(before) + Seq::empty() =~= crate::acp::block_views(
                before,
            ));
        }
        push_only(&mut blocks, &extra_blocks, false);
        blocks
    }

    /// A turn of a thread that begins now.
    pub fn begin_turn(&self, request_id: u64, streaming: bool, reset: bool) -> (r: Turn)
        ensures
            r.request_id() == request_id,
            r.hard_timeout() == self.hard_timeout(),
            r.streaming() == streaming,
            r.tool_display() == self.config().tool_display,
            r.text() == if reset {
                crate::turn::SESSION_EXPIRED@
            } else {
                Seq::empty()
            },
            r.tools().len() == 0,
            r.error() is None,
            !r.over(),
    {
        Turn::begin(
            request_id,
            self.prompt_hard_timeout,
            streaming,
            self.reactions_config.tool_display,
            reset,
        )
    }

    /// Takes in what arrives in a turn.
    pub fn step_turn(&mut self, turn: &mut Turn, thread_key: &str, input: TurnInput) -> (r: Vec<
        TurnStep,
    >)
        requires
            !old(turn).over(),
        ensures
            old(turn).after(final(turn), input, old(self).separators().contains(thread_key@)),
            crate::turn::step_views(r@) == final(turn).steps(input),
            final(self).separators() == if crate::turn::is_text(input) {
                old(self).separators().remove(thread_key@)
            } else {
                old(self).separators()
            },
            final(self).same_setup(old(self)),
            final(self).posts() == old(self).posts(),
            final(self).next_post() == old(self).next_post(),
    {
        turn.step(input, &mut self.pending_steer_separators, thread_key)
    }

    /// A session streams into a new post, whose token is returned.
    pub fn enter_post(&mut self, thread_key: &str) -> (r: u64)
        ensures
            r == old(self).next_post(),
            final(self).posts() == old(self).posts().insert(thread_key@, r),
            final(self).next_post() == if r == u64::MAX {
                0
            } else {
                (r + 1) as u64
            },
            final(self).separators() == old(self).separators(),
            final(self).same_setup(old(self)),
    {
        self.active_posts.enter(thread_key)
    }

    /// A turn is over and leaves its post, unless another has taken its place.
    pub fn leave_post(&mut self, thread_key: &str, token: u64)
        ensures
            final(self).posts() == ActivePosts::left(old(self).posts(), thread_key@, token),
            final(self).next_post() == old(self).next_post(),
            final(self).separators() == old(self).separators(),
            final(self).same_setup(old(self)),
    {
        self.active_posts.leave(thread_key, token)
    }

    /// A steer is about to be handed to a running turn: the text that follows
    /// starts a new section.
    pub fn begin_steer(&mut self, thread_key: &str)
        ensures
            final(self).separators() == old(self).separators().insert(thread_key@),
            final(self).separators() == before_steer(old(self).separators(), thread_key@),
            final(self).same_setup(old(self)),
            final(self).posts() == old(self).posts(),
            final(self).next_post() == old(self).next_post(),
    {
        self.pending_steer_separators.mark(thread_key);
    }

    /// The steer was taken, or was not. The post to move behind the latest
    /// message, if it was taken and the session streams into one.
    pub fn end_steer(&mut self, thread_key: &str, taken: bool) -> (r: Option<u64>)
        ensures
            final(self).separators() == if taken {
                old(self).separators()
            } else {
                old(self).separators().remove(thread_key@)
            },
            final(self).same_setup(old(self)),
            final(self).posts() == old(self).posts(),
            final(self).next_post() == old(self).next_post(),
            r == if taken && old(self).posts().contains_key(thread_key@) {
                Some(old(self).posts()[thread_key@])
            } else {
                None
            },
            final(self).separators() == after_steer(old(self).separators(), thread_key@, taken),
    {
        if taken {
            self.active_posts.get(thread_key)
        } else {
            self.pending_steer_separators.take(thread_key);
            None
        }
    }

    pub open spec fn same_setup(&self, other: &Self) -> bool {
        &&& self.config() == other.config()
        &&& self.hard_timeout() == other.hard_timeout()
        &&& self.liveness_interval() == other.liveness_interval()
        &&& self.attachments() == other.attachments()
    }

    /// What is done when a message has been handled, given the error if it
    /// failed.
    pub fn conclude(&self, error: &Option<String>) -> (r: Conclusion)
        ensures
            r.done == (error is None),
            r.clear_after_ms == if !self.config().remove_after_reply {
                None
            } else if error is None {
                Some(self.config().timing.done_hold_ms)
            } else {
                Some(self.config().timing.error_hold_ms)
            },
            crate::text::opt_text(r.message) == match *error {
                Some(e) => Some(user_error(e@)),
                None => None,
            },
            r@ == conclusion(self.config(), crate::text::opt_text(*error)),
    {
        let done = error.is_none();
        let hold_ms: u64 = if done {
            self.reactions_config.timing.done_hold_ms
        } else {
            self.reactions_config.timing.error_hold_ms
        };
        let clear_after_ms = if self.reactions_config.remove_after_reply {
            Some(hold_ms)
        } else {
            None
        };
        let message = match error {
            Some(e) => Some(user_error_text(e.as_str())),
            None => None,
        };
        Conclusion { done, clear_after_ms, message }
    }
}

proof fn lemma_only_is_filter(blocks: Seq<crate::acp::BlockView>, text: bool)
    ensures
        only(blocks, text) == blocks.filter(|b: crate::acp::BlockView| (b is Text) == text),
    decreases blocks.len(),
{
    reveal(Seq::filter);
    if blocks.len() > 0 {
        lemma_only_is_filter(blocks.drop_last(), text);
    }
}

/// An arrival is packed in this order: the sender alone, the texts that came
/// along, what was typed if anything was, and everything else; the texts and the
/// others each in the order in which they came.
pub proof fn lemma_packing_order(
    sender_json: Seq<char>,
    prompt: Seq<char>,
    extra: Seq<crate::acp::BlockView>,
)
    ensures
        ({
            let texts = extra.filter(|b: crate::acp::BlockView| (b is Text) == true);
            let others = extra.filter(|b: crate::acp::BlockView| (b is Text) == false);
            let all = packed(sender_json, prompt, extra);
            let n = 1 + texts.len();
            let m = n + if prompt.len() > 0 {
                1int
            } else {
                0int
            };
            &&& all.len() == m + others.len()
            &&& all[0] == (crate::acp::BlockView::Text {
                text: "<sender_context>\n"@ + sender_json + "\n</sender_context>\n\n"@,
            })
            &&& all.subrange(1, n as int) == texts
            &&& prompt.len() > 0 ==> all[n as int] == (crate::acp::BlockView::Text { text: prompt })
            &&& all.skip(m) == others
        }),
{
    lemma_only_is_filter(extra, true);
    lemma_only_is_filter(extra, false);
    let texts = only(extra, true);
    let others = only(extra, false);
    let all = packed(sender_json, prompt, extra);
    let n = 1 + texts.len();
    let m = n + if prompt.len() > 0 {
        1int
    } else {
        0int
    };
    assert(all.subrange(1, n as int) =~= texts);
    assert(all.skip(m) =~= others);
}

/// A session is that of the thread, or of the channel where there is no thread,
/// on its platform.
pub proof fn lemma_session_names_its_thread(platform: Seq<char>, channel: ChannelView)
    ensures
        channel.thread_id is Some ==> session_key(platform, channel) == platform + ":"@
            + channel.thread_id->0,
        channel.thread_id is None ==> session_key(platform, channel) == platform + ":"@
            + channel.channel_id,
{
}

/// Two references are to one channel exactly if platform, channel, thread and
/// parent agree; the event does not matter.
pub proof fn lemma_event_does_not_matter(a: ChannelView, event: Option<Seq<char>>, b: ChannelView)
    ensures
        same_channel(a, ChannelView { origin_event_id: event, ..a }),
        same_channel(a, b) ==> a.platform == b.platform && a.channel_id == b.channel_id
            && a.thread_id == b.thread_id && a.parent_id == b.parent_id,
{
}

/// The marks when a steer is about to be handed to a session.
pub open spec fn before_steer(marks: Set<Seq<char>>, key: Seq<char>) -> Set<Seq<char>> {
    marks.insert(key)
}

/// The marks when a session has taken a steer, or has not.
pub open spec fn after_steer(marks: Set<Seq<char>>, key: Seq<char>, taken: bool) -> Set<Seq<char>> {
    if taken {
        marks
    } else {
        marks.remove(key)
    }
}

/// A steer that was taken leaves its session marked, so that the next text is
/// set off; one that was refused does not. Other sessions are not concerned.
pub proof fn lemma_steer_marks_its_session(
    marks: Set<Seq<char>>,
    key: Seq<char>,
    other: Seq<char>,
    taken: bool,
)
    ensures
        before_steer(marks, key).contains(key),
        after_steer(before_steer(marks, key), key, taken).contains(key) <==> taken,
        other != key ==> (after_steer(before_steer(marks, key), key, taken).contains(other)
            <==> marks.contains(other)),
{
}

} // verus!
