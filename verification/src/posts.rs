//! The post that shows a turn while it streams: one or more messages that are
//! edited, sent and deleted so that they show the latest text.

use vstd::prelude::*;
use vstd::hash_map::StringHashMap;

use crate::adapter::{ChannelRef, MessageRef};
use crate::stream::split_streaming_display;

verus! {

broadcast use vstd::seq_lib::group_seq_properties;

/// What is to be done to the post, in order.
#[derive(Debug)]
pub enum PostStep {
    Edit { message: MessageRef, content: String },
    Send { content: String },
    Delete { message: MessageRef },
}

pub enum PostStepView {
    Edit { message: crate::adapter::RefView, content: Seq<char> },
    Send { content: Seq<char> },
    Delete { message: crate::adapter::RefView },
}

impl View for PostStep {
    type V = PostStepView;

    open spec fn view(&self) -> PostStepView {
        match self {
            PostStep::Edit { message, content } => PostStepView::Edit {
                message: message@,
                content: content@,
            },
            PostStep::Send { content } => PostStepView::Send { content: content@ },
            PostStep::Delete { message } => PostStepView::Delete { message: message@ },
        }
    }
}

pub open spec fn post_step_views(steps: Seq<PostStep>) -> Seq<PostStepView> {
    steps.map_values(|s: PostStep| s@)
}

pub open spec fn ref_views(messages: Seq<MessageRef>) -> Seq<crate::adapter::RefView> {
    messages.map_values(|m: MessageRef| m@)
}

fn copy_refs(messages: &Vec<MessageRef>, n: usize) -> (r: Vec<MessageRef>)
    requires
        n <= messages@.len(),
    ensures
        ref_views(r@) == ref_views(messages@).take(n as int),
{
    let mut out: Vec<MessageRef> = Vec::new();
    let mut i: usize = 0;
    assert(ref_views(out@) =~= ref_views(messages@).take(0));
    while i < n
        invariant
            i <= n <= messages@.len(),
            ref_views(out@) == ref_views(messages@).take(i as int),
        decreases n - i,
    {
        let ghost before = out@;
        out.push(messages[i].clone());
        i += 1;
        assert(ref_views(out@) =~= ref_views(before).push(messages@[i - 1]@));
        assert(ref_views(out@) =~= ref_views(messages@).take(i as int));
    }
    out
}

pub open spec fn smaller(a: nat, b: nat) -> nat {
    if a <= b {
        a
    } else {
        b
    }
}

/// The steps that make the messages show the parts: the messages that are there
/// are edited, what is missing is sent, what is left over is deleted.
pub open spec fn edit_steps(messages: Seq<crate::adapter::RefView>, parts: Seq<Seq<char>>) -> Seq<
    PostStepView,
> {
    Seq::new(
        parts.len(),
        |i: int|
            if i < messages.len() {
                PostStepView::Edit { message: messages[i], content: parts[i] }
            } else {
                PostStepView::Send { content: parts[i] }
            },
    ) + leftovers(messages, parts.len())
}

/// The messages beyond the first `n` are deleted.
pub open spec fn leftovers(messages: Seq<crate::adapter::RefView>, n: nat) -> Seq<PostStepView> {
    if messages.len() <= n {
        Seq::empty()
    } else {
        Seq::new(
            (messages.len() - n) as nat,
            |i: int| PostStepView::Delete { message: messages[i + n] },
        )
    }
}

/// An edit of the post that is under way.
#[derive(Debug)]
pub struct EditPlan {
    pub steps: Vec<PostStep>,
    /// The messages that stay.
    pub kept: Vec<MessageRef>,
}

/// A move of the post that is under way.
#[derive(Debug)]
pub struct MovePlan {
    /// What to send, in order.
    pub contents: Vec<String>,
    /// What to delete when all was sent.
    pub superseded: Vec<MessageRef>,
}

/// The post of a turn.
#[derive(Debug)]
pub struct StreamingPost {
    thread_channel: ChannelRef,
    current: Vec<MessageRef>,
    latest: String,
    message_limit: usize,
}

impl StreamingPost {
    pub closed spec fn channel(&self) -> crate::adapter::ChannelView {
        self.thread_channel@
    }

    /// The messages of the post, in order.
    pub closed spec fn messages(&self) -> Seq<crate::adapter::RefView> {
        ref_views(self.current@)
    }

    /// What the post is to show.
    pub closed spec fn latest(&self) -> Seq<char> {
        self.latest@
    }

    pub closed spec fn message_limit(&self) -> nat {
        self.message_limit as nat
    }

    /// The parts in which a text is shown.
    pub open spec fn parts(&self, content: Seq<char>) -> Seq<Seq<char>> {
        crate::stream::shown(content, self.message_limit())
    }

    pub fn new(
        thread_channel: ChannelRef,
        current_msg: MessageRef,
        initial_display: String,
        message_limit: usize,
    ) -> (r: Self)
        ensures
            r.channel() == thread_channel@,
            r.messages() == seq![current_msg@],
            r.latest() == initial_display@,
            r.message_limit() == message_limit,
    {
        let current = vec![current_msg];
        assert(ref_views(current@) =~= seq![current_msg@]);
        StreamingPost { thread_channel, current, latest: initial_display, message_limit }
    }

    /// Where new messages of the post are sent to.
    pub fn thread_channel(&self) -> (r: &ChannelRef)
        ensures
            r@ == self.channel(),
    {
        &self.thread_channel
    }

    /// Begins to show another text.
    pub fn begin_edit(&mut self, content: &str) -> (r: EditPlan)
        ensures
            final(self).channel() == old(self).channel(),
            final(self).messages() == old(self).messages(),
            final(self).message_limit() == old(self).message_limit(),
            final(self).latest() == content@,
            post_step_views(r.steps@) == edit_steps(
                old(self).messages(),
                old(self).parts(content@),
            ),
            ref_views(r.kept@) == old(self).messages().take(
                smaller(old(self).messages().len(), old(self).parts(content@).len()) as int,
            ),
    {
        self.latest = content.to_owned();
        let parts = split_streaming_display(content, self.message_limit);
        let ghost messages = self.messages();
        let ghost texts = crate::text::texts(parts@);
        let ghost all = edit_steps(messages, texts);
        let mut steps: Vec<PostStep> = Vec::new();
        let mut i: usize = 0;
        assert(texts.len() == parts@.len());
        assert(messages.len() == self.current@.len());
        while i < parts.len()
            invariant
                i <= parts@.len(),
                messages == self.messages(),
                messages.len() == self.current@.len(),
                texts == crate::text::texts(parts@),
                texts.len() == parts@.len(),
                all == edit_steps(messages, texts),
                post_step_views(steps@) =~= all.take(i as int),
            decreases parts.len() - i,
        {
            let ghost before = steps@;
            let step = if i < self.current.len() {
                assert(messages[i as int] == self.current@[i as int]@);
                PostStep::Edit { message: self.current[i].clone(), content: parts[i].clone() }
            } else {
                PostStep::Send { content: parts[i].clone() }
            };
            let ghost view = step@;
            steps.push(step);
            assert(texts[i as int] == parts@[i as int]@);
            assert(all[i as int] == view);
            assert(post_step_views(steps@) =~= post_step_views(before).push(view));
            i += 1;
        }
        let mut k: usize = parts.len();
        while k < self.current.len()
            invariant
                parts@.len() <= k,
                messages == self.messages(),
                messages.len() == self.current@.len(),
                texts.len() == parts@.len(),
                all == edit_steps(messages, texts),
                k <= messages.len() || k == parts@.len(),
                post_step_views(steps@) =~= all.take(k as int),
            decreases self.current.len() - k,
        {
            let ghost before = steps@;
            assert(messages[k as int] == self.current@[k as int]@);
            let step = PostStep::Delete { message: self.current[k].clone() };
            let ghost view = step@;
            steps.push(step);
            assert(all[k as int] == view);
            assert(post_step_views(steps@) =~= post_step_views(before).push(view));
            k += 1;
        }
        assert(all.take(k as int) =~= all);
        let n: usize = if self.current.len() <= parts.len() {
            self.current.len()
        } else {
            parts.len()
        };
        EditPlan { steps, kept: copy_refs(&self.current, n) }
    }

    /// Ends an edit: `kept` are the messages that stayed, `sent` those that were
    /// sent, as far as that succeeded.
    pub fn end_edit(&mut self, kept: Vec<MessageRef>, sent: Vec<MessageRef>)
        ensures
            final(self).channel() == old(self).channel(),
            final(self).latest() == old(self).latest(),
            final(self).message_limit() == old(self).message_limit(),
            final(self).messages() == ref_views(kept@) + ref_views(sent@),
    {
        let mut current = kept;
        let mut sent = sent;
        let ghost a = current@;
        let ghost b = sent@;
        current.append(&mut sent);
        assert(ref_views(current@) =~= ref_views(a) + ref_views(b));
        self.current = current;
    }

    /// Begins to move the post behind the latest message of the thread: it is
    /// sent anew.
    pub fn begin_move(&self) -> (r: MovePlan)
        ensures
            crate::text::texts(r.contents@) == self.parts(self.latest()),
            ref_views(r.superseded@) == self.messages(),
    {
        let contents = split_streaming_display(self.latest.as_str(), self.message_limit);
        let superseded = copy_refs(&self.current, self.current.len());
        assert(self.messages().take(self.current@.len() as int) =~= self.messages());
        MovePlan { contents, superseded }
    }

    /// Ends a move of which every part was sent.
    pub fn end_move(&mut self, sent: Vec<MessageRef>)
        ensures
            final(self).channel() == old(self).channel(),
            final(self).latest() == old(self).latest(),
            final(self).message_limit() == old(self).message_limit(),
            final(self).messages() == ref_views(sent@),
    {
        self.current = sent;
    }

    /// The messages of the post, to be deleted.
    pub fn current_messages(&self) -> (r: Vec<MessageRef>)
        ensures
            ref_views(r@) == self.messages(),
    {
        let r = copy_refs(&self.current, self.current.len());
        assert(self.messages().take(self.current@.len() as int) =~= self.messages());
        r
    }
}

/// An edit touches every message once: each is edited or deleted, and each part
/// is shown by one step. If all that is sent arrives, the post has as many
/// messages as parts.
pub proof fn lemma_edit_shows_every_part(
    messages: Seq<crate::adapter::RefView>,
    parts: Seq<Seq<char>>,
)
    ensures
        forall|i: int|
            0 <= i < parts.len() ==> match #[trigger] edit_steps(messages, parts)[i] {
                PostStepView::Edit { message, content } => i < messages.len() && message
                    == messages[i] && content == parts[i],
                PostStepView::Send { content } => i >= messages.len() && content == parts[i],
                PostStepView::Delete { message } => false,
            },
        forall|i: int|
            parts.len() <= i < messages.len() ==> (#[trigger] edit_steps(messages, parts)[i])
                == (PostStepView::Delete { message: messages[i] }),
        edit_steps(messages, parts).len() == if messages.len() <= parts.len() {
            parts.len()
        } else {
            messages.len()
        },
{
}

// ---------------------------------------------------------------------------
// The posts of all sessions
// ---------------------------------------------------------------------------

/// Which post each session streams into. A post is known by a token.
pub struct ActivePosts {
    posts: StringHashMap<u64>,
    next: u64,
}

impl ActivePosts {
    /// The token of each session's post.
    pub closed spec fn posts(&self) -> Map<Seq<char>, u64> {
        self.posts@
    }

    /// The token that the next post gets.
    pub closed spec fn next(&self) -> u64 {
        self.next
    }

    pub fn new() -> (r: Self)
        ensures
            r.posts() == Map::<Seq<char>, u64>::empty(),
            r.next() == 0,
    {
        ActivePosts { posts: StringHashMap::new(), next: 0 }
    }

    /// A session streams into a new post, whose token is returned.
    pub fn enter(&mut self, session_key: &str) -> (r: u64)
        ensures
            r == old(self).next(),
            final(self).next() == if r == u64::MAX {
                0
            } else {
                (r + 1) as u64
            },
            final(self).posts() == old(self).posts().insert(session_key@, r),
    {
        let token: u64 = self.next;
        self.next = if token == u64::MAX {
            0
        } else {
            token + 1
        };
        self.posts.insert(session_key.to_owned(), token);
        token
    }

    /// The post that a session streams into.
    pub fn get(&self, session_key: &str) -> (r: Option<u64>)
        ensures
            r == if self.posts().contains_key(session_key@) {
                Some(self.posts()[session_key@])
            } else {
                None
            },
    {
        match self.posts.get(session_key) {
            Some(token) => Some(*token),
            None => None,
        }
    }

    /// The posts after one was left: a session that has gone over to another
    /// post keeps that.
    pub open spec fn left(posts: Map<Seq<char>, u64>, session_key: Seq<char>, token: u64) -> Map<
        Seq<char>,
        u64,
    > {
        if posts.contains_key(session_key) && posts[session_key] == token {
            posts.remove(session_key)
        } else {
            posts
        }
    }

    /// A turn is over and leaves its post.
    pub fn leave(&mut self, session_key: &str, token: u64)
        ensures
            final(self).posts() == Self::left(old(self).posts(), session_key@, token),
            final(self).next() == old(self).next(),
    {
        let current = match self.posts.get(session_key) {
            Some(t) => *t == token,
            None => false,
        };
        if current {
            self.posts.remove(session_key);
        }
    }
}

/// A turn that ends late does not take the post of the turn that came after it,
/// nor that of another session.
pub proof fn lemma_late_leave_is_harmless(
    posts: Map<Seq<char>, u64>,
    session_key: Seq<char>,
    other: Seq<char>,
    first: u64,
    second: u64,
)
    requires
        first != second,
    ensures
        ({
            let both = posts.insert(session_key, first).insert(session_key, second);
            ActivePosts::left(both, session_key, first) == both
        }),
        other != session_key ==> ({
            let one = posts.insert(session_key, first);
            let after = ActivePosts::left(one, session_key, first);
            after.contains_key(other) == posts.contains_key(other) && (posts.contains_key(other)
                ==> after[other] == posts[other])
        }),
{
}

/// Decides whether a streaming edit is due: only when the text is another than
/// the last one shown.
#[derive(Debug)]
pub struct EditGate {
    last: String,
}

impl EditGate {
    pub closed spec fn last(&self) -> Seq<char> {
        self.last@
    }

    pub fn new() -> (r: Self)
        ensures
            r.last() == Seq::<char>::empty(),
    {
        let r = EditGate { last: String::new() };
        assert(r.last() =~= Seq::<char>::empty());
        r
    }

    /// Whether the text is to be shown; it then counts as shown.
    pub fn is_due(&mut self, content: &str) -> (r: bool)
        ensures
            r == (content@ != old(self).last()),
            final(self).last() == content@,
    {
        let same = crate::text::same_str(content, self.last.as_str());
        if !same {
            self.last = content.to_owned();
        }
        !same
    }
}

/// What stays of a post and what is sent anew are together as many messages as
/// there are parts: every part has its message if all that is sent arrives.
pub proof fn lemma_every_part_has_its_message(
    messages: Seq<crate::adapter::RefView>,
    parts: Seq<Seq<char>>,
)
    ensures
        ({
            let kept = smaller(messages.len(), parts.len());
            let sends = edit_steps(messages, parts).filter(|s: PostStepView| s is Send).len();
            &&& kept <= messages.len()
            &&& kept <= parts.len()
            &&& kept + sends == parts.len()
        }),
{
    let steps = edit_steps(messages, parts);
    lemma_sends_counted(messages, parts, steps.len() as int);
    assert(steps.take(steps.len() as int) =~= steps);
}

proof fn lemma_sends_counted(
    messages: Seq<crate::adapter::RefView>,
    parts: Seq<Seq<char>>,
    n: int,
)
    requires
        0 <= n <= edit_steps(messages, parts).len(),
    ensures
        ({
            let sends = edit_steps(messages, parts).take(n).filter(|s: PostStepView| s is Send).len();
            sends == if n <= messages.len() {
                0int
            } else if n <= parts.len() {
                n - messages.len()
            } else if parts.len() <= messages.len() {
                0int
            } else {
                parts.len() - messages.len()
            }
        }),
    decreases n,
{
    reveal(Seq::filter);
    let steps = edit_steps(messages, parts);
    if n > 0 {
        lemma_sends_counted(messages, parts, n - 1);
        lemma_edit_shows_every_part(messages, parts);
        assert(steps.take(n).drop_last() =~= steps.take(n - 1));
        assert(steps.take(n).last() == steps[n - 1]);
    }
}

} // verus!
