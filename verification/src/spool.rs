//! The durable queue of messages that wait for a turn.
//!
//! A message is kept from the moment it is queued until a turn takes it up, so
//! what is kept is exactly what is queued and not yet started. After a restart
//! the survivors are queued again.

use vstd::prelude::*;

use crate::acp::ContentBlock;
use crate::adapter::{ChannelRef, MessageRef};
use crate::text::{ascii_alphanumeric, chars_of, ends_with, skip, string_of, take};
use crate::time::wall_clock_millis;

verus! {

broadcast use vstd::seq_lib::group_seq_properties;

/// A queued message with what is needed to queue it again.
#[derive(Debug)]
pub struct PersistedMessage {
    pub id: u64,
    pub thread_key: String,
    pub thread_channel: ChannelRef,
    pub adapter_kind: String,
    pub sender_json: String,
    pub sender_name: String,
    pub prompt: String,
    pub extra_blocks: Vec<ContentBlock>,
    pub trigger_msg: MessageRef,
    pub estimated_tokens: usize,
    pub other_bot_present: bool,
    pub enqueued_at_ms: i64,
}

pub struct PersistedView {
    pub id: u64,
    pub thread_key: Seq<char>,
    pub thread_channel: crate::adapter::ChannelView,
    pub adapter_kind: Seq<char>,
    pub sender_json: Seq<char>,
    pub sender_name: Seq<char>,
    pub prompt: Seq<char>,
    pub extra_blocks: Seq<crate::acp::BlockView>,
    pub trigger_msg: crate::adapter::RefView,
    pub estimated_tokens: usize,
    pub other_bot_present: bool,
    pub enqueued_at_ms: i64,
}

impl View for PersistedMessage {
    type V = PersistedView;

    open spec fn view(&self) -> PersistedView {
        PersistedView {
            id: self.id,
            thread_key: self.thread_key@,
            thread_channel: self.thread_channel@,
            adapter_kind: self.adapter_kind@,
            sender_json: self.sender_json@,
            sender_name: self.sender_name@,
            prompt: self.prompt@,
            extra_blocks: crate::acp::block_views(self.extra_blocks@),
            trigger_msg: self.trigger_msg@,
            estimated_tokens: self.estimated_tokens,
            other_bot_present: self.other_bot_present,
            enqueued_at_ms: self.enqueued_at_ms,
        }
    }
}

impl Clone for PersistedMessage {
    fn clone(&self) -> (r: Self)
        ensures
            r@ == self@,
    {
        let mut extra_blocks: Vec<ContentBlock> = Vec::new();
        let mut i: usize = 0;
        while i < self.extra_blocks.len()
            invariant
                i <= self.extra_blocks@.len(),
                crate::acp::block_views(extra_blocks@) =~= crate::acp::block_views(
                    self.extra_blocks@,
                ).take(i as int),
            decreases self.extra_blocks.len() - i,
        {
            let ghost before = extra_blocks@;
            extra_blocks.push(self.extra_blocks[i].clone());
            assert(crate::acp::block_views(extra_blocks@) =~= crate::acp::block_views(before).push(
                self.extra_blocks@[i as int]@,
            ));
            i += 1;
        }
        assert(crate::acp::block_views(extra_blocks@) =~= crate::acp::block_views(
            self.extra_blocks@,
        ));
        PersistedMessage {
            id: self.id,
            thread_key: self.thread_key.clone(),
            thread_channel: self.thread_channel.clone(),
            adapter_kind: self.adapter_kind.clone(),
            sender_json: self.sender_json.clone(),
            sender_name: self.sender_name.clone(),
            prompt: self.prompt.clone(),
            extra_blocks,
            trigger_msg: self.trigger_msg.clone(),
            estimated_tokens: self.estimated_tokens,
            other_bot_present: self.other_bot_present,
            enqueued_at_ms: self.enqueued_at_ms,
        }
    }
}

pub open spec fn entry_views(entries: Seq<PersistedMessage>) -> Seq<PersistedView> {
    entries.map_values(|e: PersistedMessage| e@)
}

// ---------------------------------------------------------------------------
// Time stamps
// ---------------------------------------------------------------------------

/// Milliseconds since the epoch, as far as they fit; zero before the epoch.
pub open spec fn epoch_millis(millis: Option<u128>) -> int {
    match millis {
        Some(ms) => {
            let low = (ms as int) % 0x1_0000_0000_0000_0000;
            if low < 0x8000_0000_0000_0000 {
                low
            } else {
                low - 0x1_0000_0000_0000_0000
            }
        },
        None => 0,
    }
}

/// Milliseconds since the epoch, as far as they fit; zero before the epoch.
pub fn epoch_ms(millis: Option<u128>) -> (r: i64)
    ensures
        r == epoch_millis(millis),
{
    match millis {
        Some(ms) => {
            let low: u64 = (ms % 0x1_0000_0000_0000_0000u128) as u64;
            if low < 0x8000_0000_0000_0000u64 {
                low as i64
            } else {
                (low - 0x8000_0000_0000_0000u64) as i64 + i64::MIN
            }
        },
        None => 0,
    }
}

/// The wall clock now, in milliseconds since the epoch.
pub fn now_ms() -> (r: i64)
    ensures
        exists|millis: Option<u128>| r == #[trigger] epoch_millis(millis),
{
    let millis = wall_clock_millis();
    let r = epoch_ms(millis);
    assert(r == epoch_millis(millis));
    r
}

// ---------------------------------------------------------------------------
// File names
// ---------------------------------------------------------------------------

/// A character that is safe in a file name.
pub open spec fn safe_char(c: char) -> bool {
    crate::text::is_ascii_alphanumeric(c) || c == '-' || c == '_'
}

/// A text of safe characters, and not empty.
pub open spec fn safe_token(s: Seq<char>) -> bool {
    s.len() > 0 && forall|i: int| 0 <= i < s.len() ==> safe_char(#[trigger] s[i])
}

/// Every other character becomes an underscore.
pub open spec fn cleaned(s: Seq<char>) -> Seq<char> {
    s.map_values(
        |c: char|
            if safe_char(c) {
                c
            } else {
                '_'
            },
    )
}

/// A slug that is safe in a file name.
pub open spec fn sanitized(slug: Seq<char>) -> Seq<char> {
    if slug.len() == 0 {
        "default"@
    } else {
        cleaned(slug)
    }
}

/// Reduces a slug to a token that is safe in a file name.
pub fn sanitize(slug: &str) -> (r: String)
    ensures
        r@ == sanitized(slug@),
{
    let cs = chars_of(slug);
    if cs.len() == 0 {
        return "default".to_owned();
    }
    let mut out = String::new();
    let mut i: usize = 0;
    while i < cs.len()
        invariant
            i <= cs.len(),
            cs@ == slug@,
            out@ == cleaned(slug@.take(i as int)),
        decreases cs.len() - i,
    {
        let c = cs[i];
        if ascii_alphanumeric(c) || c == '-' || c == '_' {
            out.push(c);
        } else {
            out.push('_');
        }
        i += 1;
        assert(out@ =~= cleaned(slug@.take(i as int)));
    }
    assert(slug@.take(slug@.len() as int) =~= slug@);
    out
}

/// The part of a path or address behind its last separator.
pub open spec fn last_segment(src: Seq<char>) -> Seq<char>
    decreases src.len(),
{
    if src.len() == 0 || src.last() == '/' || src.last() == '\\' {
        Seq::empty()
    } else {
        last_segment(src.drop_last()).push(src.last())
    }
}

/// A name without its ending `.toml`.
pub open spec fn stem(name: Seq<char>) -> Seq<char> {
    if crate::text::ends(name, ".toml"@) {
        name.take(name.len() - ".toml"@.len())
    } else {
        name
    }
}

/// The slug of the bot that has its configuration here.
pub fn slug_from_config_source(src: &str) -> (r: String)
    ensures
        r@ == sanitized(stem(last_segment(src@))),
{
    let cs = chars_of(src);
    let mut i: usize = cs.len();
    proof {
        assert(cs@.take(i as int) =~= cs@);
        assert(last_segment(cs@.take(i as int)) + cs@.skip(i as int) =~= last_segment(src@));
    }
    while i > 0 && cs[i - 1] != '/' && cs[i - 1] != '\\'
        invariant
            i <= cs@.len(),
            cs@ == src@,
            last_segment(cs@.take(i as int)) + cs@.skip(i as int) == last_segment(src@),
        decreases i,
    {
        proof {
            let front = cs@.take(i as int);
            assert(front.drop_last() =~= cs@.take(i - 1));
            assert(last_segment(cs@.take(i - 1)) + cs@.skip(i - 1) =~= last_segment(front)
                + cs@.skip(i as int));
        }
        i -= 1;
    }
    assert(last_segment(src@) =~= cs@.skip(i as int));
    let last = skip(cs.as_slice(), i);
    let name = if ends_with(last, ".toml") {
        proof {
            reveal_strlit(".toml");
        }
        take(last, last.len() - 5)
    } else {
        last
    };
    sanitize(string_of(name).as_str())
}

/// The file that holds a bot's queue.
pub open spec fn file_name_of(slug: Seq<char>) -> Seq<char> {
    "queue-"@ + sanitized(slug) + ".json"@
}

/// The file that holds a bot's queue.
pub fn queue_file_name(bot_slug: &str) -> (r: String)
    ensures
        r@ == file_name_of(bot_slug@),
{
    let mut out = "queue-".to_owned();
    out.push_str(sanitize(bot_slug).as_str());
    out.push_str(".json");
    out
}

/// A slug is always a safe token; and a safe token stays as it is, so that
/// bots with different safe slugs have different files.
pub proof fn lemma_sanitized_is_safe(slug: Seq<char>)
    ensures
        safe_token(sanitized(slug)),
        safe_token(slug) ==> sanitized(slug) == slug,
        sanitized(sanitized(slug)) == sanitized(slug),
{
    reveal_strlit("default");
    assert(safe_token("default"@));
    let s = sanitized(slug);
    assert(safe_token(s)) by {
        assert forall|i: int| 0 <= i < s.len() implies safe_char(#[trigger] s[i]) by {
            if slug.len() > 0 {
                assert(s[i] == if safe_char(slug[i]) {
                    slug[i]
                } else {
                    '_'
                });
            }
        }
    }
    assert(cleaned(s) =~= s);
    if safe_token(slug) {
        assert(cleaned(slug) =~= slug);
    }
}

/// The file of a queue never lies outside its directory: its name has no
/// separator and does not begin with a dot.
pub proof fn lemma_file_name_stays_inside(slug: Seq<char>)
    ensures
        !file_name_of(slug).contains('/'),
        !file_name_of(slug).contains('\\'),
        file_name_of(slug)[0] == 'q',
{
    reveal_strlit("queue-");
    reveal_strlit(".json");
    lemma_sanitized_is_safe(slug);
    let name = file_name_of(slug);
    let s = sanitized(slug);
    assert forall|i: int| 0 <= i < name.len() implies name[i] != '/' && name[i] != '\\' by {
        if 6 <= i < 6 + s.len() {
            assert(name[i] == s[i - 6]);
            assert(safe_char(s[i - 6]));
        }
    }
}

// ---------------------------------------------------------------------------
// The queue
// ---------------------------------------------------------------------------

/// The entries but for those with an id.
pub open spec fn without_id(entries: Seq<PersistedView>, id: u64) -> Seq<PersistedView>
    decreases entries.len(),
{
    if entries.len() == 0 {
        Seq::empty()
    } else {
        let front = without_id(entries.drop_last(), id);
        if entries.last().id == id {
            front
        } else {
            front.push(entries.last())
        }
    }
}

/// The entries but for those that were picked.
pub open spec fn without_picked(entries: Seq<PersistedView>, picked: Seq<bool>) -> Seq<
    PersistedView,
>
    decreases entries.len(),
{
    if entries.len() == 0 {
        Seq::empty()
    } else {
        let front = without_picked(entries.drop_last(), picked);
        if picked[entries.len() - 1] {
            front
        } else {
            front.push(entries.last())
        }
    }
}

/// The id after the largest; zero for none.
pub open spec fn next_after(entries: Seq<PersistedView>) -> int
    decreases entries.len(),
{
    if entries.len() == 0 {
        0
    } else {
        let front = next_after(entries.drop_last());
        if entries.last().id + 1 > front {
            entries.last().id + 1
        } else {
            front
        }
    }
}

/// A number as far as sixty-four bits hold it.
pub open spec fn low64(n: int) -> u64 {
    (n % 0x1_0000_0000_0000_0000) as u64
}

fn keep_others(entries: &Vec<PersistedMessage>, id: u64) -> (r: (Vec<PersistedMessage>, bool))
    ensures
        entry_views(r.0@) == without_id(entry_views(entries@), id),
        r.1 == exists|j: int|
            0 <= j < entries@.len() && (#[trigger] entry_views(entries@)[j]).id == id,
        r.1 <==> r.0@.len() < entries@.len(),
{
    let ghost all = entry_views(entries@);
    let mut i: usize = 0;
    let mut changed = false;
    let mut kept: Vec<PersistedMessage> = Vec::new();
    assert(all.take(0) =~= Seq::empty());
    assert(entry_views(kept@) =~= Seq::empty());
    while i < entries.len()
        invariant
            i <= entries@.len(),
            all == entry_views(entries@),
            entry_views(kept@) == without_id(all.take(i as int), id),
            changed == exists|j: int| 0 <= j < i && (#[trigger] all[j]).id == id,
            kept@.len() <= i,
            changed <==> kept@.len() < i,
        decreases entries.len() - i,
    {
        assert(all.take(i + 1).drop_last() =~= all.take(i as int));
        assert(all[i as int] == entries@[i as int]@);
        if entries[i].id == id {
            changed = true;
            assert(all[i as int].id == id);
        } else {
            let ghost before = kept@;
            kept.push(entries[i].clone());
            assert(entry_views(kept@) =~= entry_views(before).push(all[i as int]));
        }
        i += 1;
    }
    assert(all.take(all.len() as int) =~= all);
    (kept, changed)
}

/// The queue of one bot. Whatever changes it is to be written to disk.
#[derive(Debug)]
pub struct QueueSpool {
    entries: Vec<PersistedMessage>,
    next_id: u64,
}

impl QueueSpool {
    /// The messages that are queued, oldest first.
    pub closed spec fn messages(&self) -> Seq<PersistedMessage> {
        self.entries@
    }

    /// What is queued, oldest first.
    pub open spec fn queued(&self) -> Seq<PersistedView> {
        entry_views(self.messages())
    }

    /// The id that the next message gets.
    pub closed spec fn next_id(&self) -> u64 {
        self.next_id
    }

    /// Opens a queue with what was read from disk. A file that is missing or
    /// corrupt starts empty.
    pub fn open_at(loaded: Option<Vec<PersistedMessage>>) -> (r: Self)
        ensures
            r.queued() == match loaded {
                Some(entries) => entry_views(entries@),
                None => Seq::empty(),
            },
            r.next_id() == low64(next_after(r.queued())),
    {
        let entries: Vec<PersistedMessage> = match loaded {
            Some(entries) => entries,
            None => Vec::new(),
        };
        let ghost all = entry_views(entries@);
        proof {
            if loaded is None {
                assert(all =~= Seq::empty());
            }
        }
        let mut next: u128 = 0;
        let mut i: usize = 0;
        assert(all.take(0) =~= Seq::empty());
        while i < entries.len()
            invariant
                i <= entries@.len(),
                all == entry_views(entries@),
                next == next_after(all.take(i as int)),
                next <= 0x1_0000_0000_0000_0000,
            decreases entries.len() - i,
        {
            assert(all.take(i + 1).drop_last() =~= all.take(i as int));
            assert(all[i as int].id == entries@[i as int].id);
            let after: u128 = entries[i].id as u128 + 1;
            if after > next {
                next = after;
            }
            i += 1;
        }
        assert(all.take(all.len() as int) =~= all);
        QueueSpool { entries, next_id: (next % 0x1_0000_0000_0000_0000u128) as u64 }
    }

    /// Queues a message under a new id, which is returned.
    pub fn append(&mut self, msg: PersistedMessage) -> (r: u64)
        ensures
            r == old(self).next_id(),
            final(self).next_id() == low64(old(self).next_id() + 1),
            final(self).queued() == old(self).queued().push(PersistedView { id: r, ..msg@ }),
            final(self).queued() == queued_with(old(self).queued(), msg@, r),
    {
        let ghost before = self.entries@;
        let id: u64 = self.next_id;
        self.next_id = if id == u64::MAX {
            0
        } else {
            id + 1
        };
        let mut msg = msg;
        msg.id = id;
        let ghost view = msg@;
        self.entries.push(msg);
        assert(entry_views(self.entries@) =~= entry_views(before).push(view));
        id
    }

    /// Takes a message out of the queue; whether it was there.
    pub fn remove(&mut self, id: u64) -> (r: bool)
        ensures
            final(self).queued() == without_id(old(self).queued(), id),
            final(self).next_id() == old(self).next_id(),
            r == (final(self).queued() != old(self).queued()),
            r == exists|i: int|
                0 <= i < old(self).queued().len() && (#[trigger] old(self).queued()[i]).id == id,
    {
        let ghost all = self.queued();
        let (kept, changed) = keep_others(&self.entries, id);
        proof {
            assert(entry_views(kept@).len() == kept@.len());
            assert(all.len() == self.entries@.len());
            if !changed {
                lemma_without_unknown_id(all, id);
            }
        }
        if changed {
            self.entries = kept;
        }
        changed
    }

    /// Takes every message that `pred` picks out of the queue; whether there
    /// was one.
    pub fn remove_matching<F: Fn(&PersistedMessage) -> bool>(&mut self, pred: F) -> (r: bool)
        requires
            forall|m: &PersistedMessage| call_requires(pred, (m,)),
        ensures
            exists|picked: Seq<bool>| #[trigger]
                old(self).picks(pred, picked) && final(self).queued() == without_picked(
                    old(self).queued(),
                    picked,
                ) && r == picked.contains(true),
            final(self).next_id() == old(self).next_id(),
    {
        let ghost all = self.queued();
        let ghost mut picked: Seq<bool> = Seq::empty();
        let mut i: usize = 0;
        let mut changed = false;
        let mut kept: Vec<PersistedMessage> = Vec::new();
        assert(all.take(0) =~= Seq::empty());
        assert(entry_views(kept@) =~= Seq::empty());
        while i < self.entries.len()
            invariant
                i <= self.entries@.len(),
                *self == *old(self),
                all == self.queued(),
                picked.len() == i,
                forall|m: &PersistedMessage| call_requires(pred, (m,)),
                forall|j: int|
                    0 <= j < i ==> call_ensures(
                        pred,
                        (&self.entries@[j],),
                        #[trigger] picked[j],
                    ),
                entry_views(kept@) == without_picked(all.take(i as int), picked),
                changed == picked.contains(true),
            decreases self.entries.len() - i,
        {
            assert(all.take(i + 1).drop_last() =~= all.take(i as int));
            assert(all[i as int] == self.entries@[i as int]@);
            let pick = pred(&self.entries[i]);
            let ghost picked_before = picked;
            proof {
                picked = picked.push(pick);
                lemma_without_picked_prefix(all.take(i as int), picked_before, picked);
            }
            if pick {
                changed = true;
                assert(picked[i as int]);
            } else {
                let ghost before = kept@;
                kept.push(self.entries[i].clone());
                assert(entry_views(kept@) =~= entry_views(before).push(all[i as int]));
                assert(picked.contains(true) == picked_before.contains(true)) by {
                    if picked_before.contains(true) {
                        let k = choose|k: int| 0 <= k < picked_before.len() && picked_before[k];
                        assert(picked[k]);
                    }
                }
            }
            i += 1;
        }
        proof {
            assert(all.take(all.len() as int) =~= all);
            assert(self.picks(pred, picked));
        }
        self.entries = kept;
        changed
    }

    /// What a predicate says of each message.
    pub open spec fn picks<F: Fn(&PersistedMessage) -> bool>(
        &self,
        pred: F,
        picked: Seq<bool>,
    ) -> bool {
        &&& picked.len() == self.messages().len()
        &&& forall|j: int|
            0 <= j < picked.len() ==> call_ensures(
                pred,
                (&self.messages()[j],),
                #[trigger] picked[j],
            )
    }

    /// What is queued, oldest first.
    pub fn entries(&self) -> (r: Vec<PersistedMessage>)
        ensures
            entry_views(r@) == self.queued(),
    {
        let ghost all = self.queued();
        let mut out: Vec<PersistedMessage> = Vec::new();
        let mut i: usize = 0;
        while i < self.entries.len()
            invariant
                i <= self.entries@.len(),
                all == self.queued(),
                entry_views(out@) =~= all.take(i as int),
            decreases self.entries.len() - i,
        {
            let ghost before = out@;
            out.push(self.entries[i].clone());
            assert(entry_views(out@) =~= entry_views(before).push(all[i as int]));
            i += 1;
        }
        assert(all.take(all.len() as int) =~= all);
        out
    }

    /// How many messages are queued.
    pub fn len(&self) -> (r: usize)
        ensures
            r == self.queued().len(),
    {
        self.entries.len()
    }
}

proof fn lemma_without_unknown_id(entries: Seq<PersistedView>, id: u64)
    requires
        forall|i: int| 0 <= i < entries.len() ==> (#[trigger] entries[i]).id != id,
    ensures
        without_id(entries, id) == entries,
    decreases entries.len(),
{
    if entries.len() > 0 {
        assert(entries[entries.len() - 1].id != id);
        assert forall|i: int| 0 <= i < entries.drop_last().len() implies (
        #[trigger] entries.drop_last()[i]).id != id by {
            assert(entries[i].id != id);
        }
        lemma_without_unknown_id(entries.drop_last(), id);
        assert(entries.drop_last().push(entries.last()) =~= entries);
    } else {
        assert(entries =~= Seq::empty());
    }
}

proof fn lemma_without_picked_prefix(entries: Seq<PersistedView>, a: Seq<bool>, b: Seq<bool>)
    requires
        a.len() >= entries.len(),
        b.len() >= entries.len(),
        forall|i: int| 0 <= i < entries.len() ==> a[i] == b[i],
    ensures
        without_picked(entries, a) == without_picked(entries, b),
    decreases entries.len(),
{
    if entries.len() > 0 {
        lemma_without_picked_prefix(entries.drop_last(), a, b);
    }
}

// ---------------------------------------------------------------------------
// What holds of every queue
// ---------------------------------------------------------------------------

/// No two entries have one id, and the next id is beyond all of them.
pub open spec fn ids_ok(entries: Seq<PersistedView>, next_id: int) -> bool {
    &&& forall|i: int, j: int|
        0 <= i < j < entries.len() ==> (#[trigger] entries[i]).id != (#[trigger] entries[j]).id
    &&& forall|i: int| 0 <= i < entries.len() ==> (#[trigger] entries[i]).id < next_id
}

/// Queueing keeps ids apart.
pub proof fn lemma_append_keeps_ids(entries: Seq<PersistedView>, next_id: int, msg: PersistedView)
    requires
        ids_ok(entries, next_id),
        msg.id == next_id,
    ensures
        ids_ok(entries.push(msg), next_id + 1),
{
}

/// Taking a message out keeps ids apart; nothing with that id is left, and
/// everything else is.
pub proof fn lemma_remove_keeps_ids(entries: Seq<PersistedView>, next_id: int, id: u64)
    requires
        ids_ok(entries, next_id),
    ensures
        ids_ok(without_id(entries, id), next_id),
        forall|i: int|
            0 <= i < without_id(entries, id).len() ==> (#[trigger] without_id(entries, id)[i]).id
                != id && entries.contains(without_id(entries, id)[i]),
        forall|i: int|
            0 <= i < entries.len() && (#[trigger] entries[i]).id != id ==> without_id(
                entries,
                id,
            ).contains(entries[i]),
    decreases entries.len(),
{
    if entries.len() > 0 {
        let shorter = entries.drop_last();
        let front = without_id(shorter, id);
        let all = without_id(entries, id);
        assert forall|i: int, j: int| 0 <= i < j < shorter.len() implies (#[trigger] shorter[i]).id
            != (#[trigger] shorter[j]).id by {
            assert(entries[i].id != entries[j].id);
        }
        assert forall|i: int| 0 <= i < shorter.len() implies (#[trigger] shorter[i]).id
            < next_id by {
            assert(entries[i].id < next_id);
        }
        lemma_remove_keeps_ids(shorter, next_id, id);
        assert forall|i: int| 0 <= i < all.len() implies (#[trigger] all[i]).id != id
            && entries.contains(all[i]) by {
            if i < front.len() {
                assert(all[i] == front[i]);
                assert(shorter.contains(front[i]));
                let k = choose|k: int| 0 <= k < shorter.len() && shorter[k] == front[i];
                assert(entries[k] == all[i]);
            } else {
                assert(entries[entries.len() - 1] == all[i]);
            }
        }
        assert forall|i: int| 0 <= i < entries.len() && (#[trigger] entries[i]).id
            != id implies all.contains(entries[i]) by {
            if i < shorter.len() {
                assert(shorter[i] == entries[i]);
                assert(front.contains(entries[i]));
                let k = choose|k: int| 0 <= k < front.len() && front[k] == entries[i];
                assert(all[k] == entries[i]);
            } else {
                assert(all[all.len() - 1] == entries[i]);
            }
        }
        assert forall|i: int, j: int| 0 <= i < j < all.len() implies (#[trigger] all[i]).id != (
        #[trigger] all[j]).id by {
            if j < front.len() {
                assert(front[i].id != front[j].id);
            } else {
                assert(all[i] == front[i]);
                assert(shorter.contains(front[i]));
                let k = choose|k: int| 0 <= k < shorter.len() && shorter[k] == front[i];
                assert(entries[k].id != entries[entries.len() - 1].id);
            }
        }
        assert forall|i: int| 0 <= i < all.len() implies (#[trigger] all[i]).id < next_id by {
            assert(entries.contains(all[i]));
            let k = choose|k: int| 0 <= k < entries.len() && entries[k] == all[i];
            assert(entries[k].id < next_id);
        }
    }
}

/// Taking a message out twice is taking it out once.
pub proof fn lemma_remove_is_idempotent(entries: Seq<PersistedView>, id: u64)
    ensures
        without_id(without_id(entries, id), id) == without_id(entries, id),
{
    lemma_removed_is_gone(entries, id);
    lemma_without_unknown_id(without_id(entries, id), id);
}

proof fn lemma_removed_is_gone(entries: Seq<PersistedView>, id: u64)
    ensures
        forall|i: int|
            0 <= i < without_id(entries, id).len() ==> (#[trigger] without_id(entries, id)[i]).id
                != id,
    decreases entries.len(),
{
    if entries.len() > 0 {
        let front = without_id(entries.drop_last(), id);
        lemma_removed_is_gone(entries.drop_last(), id);
        assert forall|i: int| 0 <= i < without_id(entries, id).len() implies (
        #[trigger] without_id(entries, id)[i]).id != id by {
            if i < front.len() {
                assert(without_id(entries, id)[i] == front[i]);
            }
        }
    }
}

/// Taking out what was just queued restores the queue, as long as ids have not
/// run out.
pub proof fn lemma_remove_undoes_append(
    entries: Seq<PersistedView>,
    next_id: u64,
    msg: PersistedView,
)
    requires
        ids_ok(entries, next_id as int),
    ensures
        without_id(entries.push(PersistedView { id: next_id, ..msg }), next_id) == entries,
{
    let all = entries.push(PersistedView { id: next_id, ..msg });
    assert(all.drop_last() =~= entries);
    lemma_without_unknown_id(entries, next_id);
}

/// After a restart ids go on: the next is beyond every one that survived, and
/// not beyond what it was.
pub proof fn lemma_ids_survive_reopen(entries: Seq<PersistedView>, next_id: int)
    requires
        ids_ok(entries, next_id),
        next_id >= 0,
    ensures
        ids_ok(entries, next_after(entries)),
        next_after(entries) <= next_id,
{
    lemma_next_after(entries);
    if entries.len() > 0 {
        let k = choose|k: int|
            0 <= k < entries.len() && next_after(entries) == (#[trigger] entries[k]).id + 1;
        assert(entries[k].id < next_id);
    }
}

proof fn lemma_next_after(entries: Seq<PersistedView>)
    ensures
        forall|i: int| 0 <= i < entries.len() ==> (#[trigger] entries[i]).id < next_after(entries),
        entries.len() > 0 ==> exists|k: int|
            0 <= k < entries.len() && next_after(entries) == (#[trigger] entries[k]).id + 1,
        entries.len() == 0 ==> next_after(entries) == 0,
    decreases entries.len(),
{
    if entries.len() > 0 {
        let shorter = entries.drop_last();
        lemma_next_after(shorter);
        assert forall|i: int| 0 <= i < entries.len() implies (#[trigger] entries[i]).id
            < next_after(entries) by {
            if i < shorter.len() {
                assert(shorter[i] == entries[i]);
            }
        }
        if next_after(entries) == entries.last().id + 1 {
            assert(entries[entries.len() - 1] == entries.last());
        } else {
            let k = choose|k: int|
                0 <= k < shorter.len() && next_after(shorter) == (#[trigger] shorter[k]).id + 1;
            assert(entries[k] == shorter[k]);
        }
    }
}

/// How many of the first `n` were not picked.
pub open spec fn spared(picked: Seq<bool>, n: int) -> nat
    decreases n,
{
    if n <= 0 {
        0
    } else {
        spared(picked, n - 1) + if picked[n - 1] {
            0nat
        } else {
            1nat
        }
    }
}

/// Purging takes out what was picked and nothing else: as many messages are left
/// as were not picked, and each of them stands behind exactly those that were
/// not picked before it.
pub proof fn lemma_purge_spares_the_rest(entries: Seq<PersistedView>, picked: Seq<bool>)
    requires
        picked.len() == entries.len(),
    ensures
        without_picked(entries, picked).len() == spared(picked, entries.len() as int),
        forall|i: int|
            0 <= i < entries.len() && !(#[trigger] picked[i]) ==> spared(picked, i) < spared(
                picked,
                entries.len() as int,
            ) && without_picked(entries, picked)[spared(picked, i) as int] == entries[i],
        forall|i: int|
            0 <= i < entries.len() && !(#[trigger] picked[i]) ==> without_picked(
                entries,
                picked,
            ).contains(entries[i]),
{
    lemma_purge_of_first(entries, picked, entries.len() as int);
    assert(entries.take(entries.len() as int) =~= entries);
    assert forall|i: int| 0 <= i < entries.len() && !(
    #[trigger] picked[i]) implies without_picked(entries, picked).contains(entries[i]) by {
        assert(without_picked(entries, picked)[spared(picked, i) as int] == entries[i]);
    }
}

proof fn lemma_purge_of_first(entries: Seq<PersistedView>, picked: Seq<bool>, n: int)
    requires
        picked.len() == entries.len(),
        0 <= n <= entries.len(),
    ensures
        without_picked(entries.take(n), picked).len() == spared(picked, n),
        forall|i: int|
            0 <= i < n && !(#[trigger] picked[i]) ==> spared(picked, i) < spared(picked, n)
                && without_picked(entries.take(n), picked)[spared(picked, i) as int] == entries[i],
    decreases n,
{
    if n > 0 {
        lemma_purge_of_first(entries, picked, n - 1);
        assert(entries.take(n).drop_last() =~= entries.take(n - 1));
        let front = without_picked(entries.take(n - 1), picked);
        let all = without_picked(entries.take(n), picked);
        assert(all.len() == front.len() + if picked[n - 1] {
            0int
        } else {
            1int
        });
        assert forall|i: int| 0 <= i < n && !(#[trigger] picked[i]) implies spared(picked, i)
            < spared(picked, n) && all[spared(picked, i) as int] == entries[i] by {
            if i < n - 1 {
                assert(all[spared(picked, i) as int] == front[spared(picked, i) as int]);
            }
        }
    }
}

/// How many of the first `n` messages have another id.
pub open spec fn others(entries: Seq<PersistedView>, id: u64, n: int) -> nat
    decreases n,
{
    if n <= 0 {
        0
    } else {
        others(entries, id, n - 1) + if entries[n - 1].id == id {
            0nat
        } else {
            1nat
        }
    }
}

/// Taking a message out takes out nothing else: as many are left as have another
/// id, and each of them stands behind exactly those that stood before it.
pub proof fn lemma_remove_spares_the_rest(entries: Seq<PersistedView>, id: u64)
    ensures
        without_id(entries, id).len() == others(entries, id, entries.len() as int),
        forall|i: int|
            0 <= i < entries.len() && (#[trigger] entries[i]).id != id ==> others(entries, id, i)
                < others(entries, id, entries.len() as int) && without_id(entries, id)[others(
                entries,
                id,
                i,
            ) as int] == entries[i],
{
    lemma_remove_of_first(entries, id, entries.len() as int);
    assert(entries.take(entries.len() as int) =~= entries);
}

proof fn lemma_remove_of_first(entries: Seq<PersistedView>, id: u64, n: int)
    requires
        0 <= n <= entries.len(),
    ensures
        without_id(entries.take(n), id).len() == others(entries, id, n),
        forall|i: int|
            0 <= i < n && (#[trigger] entries[i]).id != id ==> others(entries, id, i) < others(
                entries,
                id,
                n,
            ) && without_id(entries.take(n), id)[others(entries, id, i) as int] == entries[i],
    decreases n,
{
    if n > 0 {
        lemma_remove_of_first(entries, id, n - 1);
        assert(entries.take(n).drop_last() =~= entries.take(n - 1));
        let front = without_id(entries.take(n - 1), id);
        let all = without_id(entries.take(n), id);
        assert(entries.take(n).last() == entries[n - 1]);
        assert(all.len() == front.len() + if entries[n - 1].id == id {
            0int
        } else {
            1int
        });
        assert forall|i: int| 0 <= i < n && (#[trigger] entries[i]).id != id implies others(
            entries,
            id,
            i,
        ) < others(entries, id, n) && all[others(entries, id, i) as int] == entries[i] by {
            if i < n - 1 {
                assert(all[others(entries, id, i) as int] == front[others(entries, id, i) as int]);
            }
        }
    }
}

/// The next id is one more than some id in use and more than every other, and
/// zero for an empty queue.
pub proof fn lemma_next_id_follows_the_largest(entries: Seq<PersistedView>)
    ensures
        forall|i: int| 0 <= i < entries.len() ==> (#[trigger] entries[i]).id < next_after(entries),
        entries.len() > 0 ==> exists|i: int|
            0 <= i < entries.len() && next_after(entries) == (#[trigger] entries[i]).id + 1,
        entries.len() == 0 ==> next_after(entries) == 0,
        next_after(entries) < 0x1_0000_0000_0000_0000 ==> low64(next_after(entries)) == next_after(
            entries,
        ),
{
    lemma_next_after(entries);
}

/// A slug keeps its length and every letter, digit, hyphen and underscore; every
/// other character becomes an underscore.
pub proof fn lemma_slug_is_kept_readable(slug: Seq<char>, i: int)
    requires
        0 <= i < slug.len(),
    ensures
        sanitized(slug).len() == slug.len(),
        sanitized(slug)[i] == if '0' <= slug[i] <= '9' || 'a' <= slug[i] <= 'z' || 'A' <= slug[i]
            <= 'Z' || slug[i] == '-' || slug[i] == '_' {
            slug[i]
        } else {
            '_'
        },
{
}

/// The slug of a configuration is its name without directories and without the
/// ending: where it lies does not matter.
pub proof fn lemma_slug_is_the_name(dir: Seq<char>, name: Seq<char>)
    requires
        forall|i: int| 0 <= i < name.len() ==> (#[trigger] name[i]) != '/' && name[i] != '\\',
    ensures
        sanitized(stem(last_segment(dir + "/"@ + name + ".toml"@))) == sanitized(name),
        sanitized(stem(last_segment(dir + "\\"@ + name + ".toml"@))) == sanitized(name),
        sanitized(stem(last_segment(name + ".toml"@))) == sanitized(name),
        crate::text::ends(name, ".toml"@) || sanitized(stem(last_segment(dir + "/"@ + name)))
            == sanitized(name),
{
    reveal_strlit(".toml");
    reveal_strlit("/");
    reveal_strlit("\\");
    let full = name + ".toml"@;
    assert forall|i: int| 0 <= i < full.len() implies (#[trigger] full[i]) != '/' && full[i]
        != '\\' by {
        if i < name.len() {
            assert(full[i] == name[i]);
        }
    }
    lemma_last_segment(dir + "/"@, full);
    lemma_last_segment(dir + "\\"@, full);
    lemma_last_segment(Seq::empty(), full);
    lemma_last_segment(dir + "/"@, name);
    assert(dir + "/"@ + name + ".toml"@ =~= dir + "/"@ + full);
    assert(dir + "\\"@ + name + ".toml"@ =~= dir + "\\"@ + full);
    assert(Seq::<char>::empty() + full =~= full);
    assert(full.subrange(full.len() - 5, full.len() as int) =~= ".toml"@);
    assert(full.take(full.len() - 5) =~= name);
}

proof fn lemma_last_segment(front: Seq<char>, name: Seq<char>)
    requires
        front.len() == 0 || front.last() == '/' || front.last() == '\\',
        forall|i: int| 0 <= i < name.len() ==> (#[trigger] name[i]) != '/' && name[i] != '\\',
    ensures
        last_segment(front + name) == name,
    decreases name.len(),
{
    let all = front + name;
    if name.len() == 0 {
        assert(all =~= front);
        assert(name =~= Seq::empty());
    } else {
        let shorter = name.drop_last();
        assert forall|i: int| 0 <= i < shorter.len() implies (#[trigger] shorter[i]) != '/'
            && shorter[i] != '\\' by {
            assert(name[i] == shorter[i]);
        }
        lemma_last_segment(front, shorter);
        assert(all.drop_last() =~= front + shorter);
        assert(name[name.len() - 1] == all.last());
        assert(shorter.push(name.last()) =~= name);
    }
}

/// The queue with one more message, under its id.
pub open spec fn queued_with(entries: Seq<PersistedView>, msg: PersistedView, id: u64) -> Seq<
    PersistedView,
> {
    entries.push(PersistedView { id, ..msg })
}

/// A message is queued last, whole, under its id; those before it stay.
pub proof fn lemma_queued_message_is_whole(
    entries: Seq<PersistedView>,
    msg: PersistedView,
    id: u64,
)
    ensures
        ({
            let after = queued_with(entries, msg, id);
            let last = after.last();
            &&& after.len() == entries.len() + 1
            &&& after.drop_last() == entries
            &&& last.id == id
            &&& last.thread_key == msg.thread_key
            &&& last.thread_channel == msg.thread_channel
            &&& last.adapter_kind == msg.adapter_kind
            &&& last.sender_json == msg.sender_json
            &&& last.sender_name == msg.sender_name
            &&& last.prompt == msg.prompt
            &&& last.extra_blocks == msg.extra_blocks
            &&& last.trigger_msg == msg.trigger_msg
            &&& last.estimated_tokens == msg.estimated_tokens
            &&& last.other_bot_present == msg.other_bot_present
            &&& last.enqueued_at_ms == msg.enqueued_at_ms
        }),
{
    assert(queued_with(entries, msg, id).drop_last() =~= entries);
}

/// Milliseconds since the epoch are kept as they are, as long as they fit.
pub proof fn lemma_time_stamps_are_kept(ms: u128)
    ensures
        ms <= i64::MAX ==> epoch_millis(Some(ms)) == ms,
        epoch_millis(None) == 0,
{
}

/// The file of a queue is named after its bot.
pub proof fn lemma_file_is_named_after_its_bot(slug: Seq<char>, other: Seq<char>)
    ensures
        file_name_of(slug) == "queue-"@ + sanitized(slug) + ".json"@,
        file_name_of(slug) == file_name_of(other) <==> sanitized(slug) == sanitized(other),
{
    let a = sanitized(slug);
    let b = sanitized(other);
    let front = "queue-"@;
    let end = ".json"@;
    let x = front + a + end;
    let y = front + b + end;
    assert(x.subrange(front.len() as int, x.len() - end.len()) =~= a);
    assert(y.subrange(front.len() as int, y.len() - end.len()) =~= b);
}

} // verus!
