//! Bounded recovery of the context around an incoming message.
//!
//! Adapters fetch messages, turn them into [`RecoveredMessage`]s and hand them
//! to a [`ContextCollector`], which drops duplicates and keeps to the prompt's
//! budgets.

use vstd::prelude::*;

use crate::config::ContextRecoveryConfig;
use crate::patterns::{all_captures, first_captures, group_text};
use crate::text::{
    ascii_digit, ascii_lower_char, chars_of, copy_opt, copy_strings, position_of, same_str, skip,
    string_of, take,
};

verus! {

broadcast use vstd::seq_lib::group_seq_properties;

/// Names the form of a recovered context.
pub const CONTEXT_SCHEMA: &'static str = "openab.recovered-context.v1";

/// A link to a Discord message: guild, channel, message.
pub const DISCORD_MESSAGE_LINK: &'static str = "https?://(?:(?:canary|ptb)\\.)?discord(?:app)?\\.com/channels/(\\d+|@me)/(\\d+)/(\\d+)";

/// A link to a Slack message: workspace, channel, digits of the timestamp.
pub const SLACK_MESSAGE_LINK: &'static str = "https?://([A-Za-z0-9.-]+)\\.slack\\.com/archives/([A-Za-z0-9]+)/p(\\d{16,20})(?:\\?[^\\s<>]*)?";

/// The thread that a Slack link names.
pub const SLACK_THREAD_TS: &'static str = "(?:\\?|&)thread_ts=(\\d{10,}\\.?\\d*)";

// ---------------------------------------------------------------------------
// Message links
// ---------------------------------------------------------------------------

#[derive(Debug, PartialEq, Eq)]
pub struct DiscordMessageLink {
    pub guild_id: String,
    pub channel_id: String,
    pub message_id: String,
}

pub struct DiscordLinkView {
    pub guild_id: Seq<char>,
    pub channel_id: Seq<char>,
    pub message_id: Seq<char>,
}

impl View for DiscordMessageLink {
    type V = DiscordLinkView;

    open spec fn view(&self) -> DiscordLinkView {
        DiscordLinkView {
            guild_id: self.guild_id@,
            channel_id: self.channel_id@,
            message_id: self.message_id@,
        }
    }
}

impl Clone for DiscordMessageLink {
    fn clone(&self) -> (r: Self)
        ensures
            r@ == self@,
    {
        DiscordMessageLink {
            guild_id: self.guild_id.clone(),
            channel_id: self.channel_id.clone(),
            message_id: self.message_id.clone(),
        }
    }
}

#[derive(Debug, PartialEq, Eq)]
pub struct SlackMessageLink {
    pub workspace: String,
    pub channel_id: String,
    pub message_ts: String,
    pub thread_ts: Option<String>,
}

pub struct SlackLinkView {
    pub workspace: Seq<char>,
    pub channel_id: Seq<char>,
    pub message_ts: Seq<char>,
    pub thread_ts: Option<Seq<char>>,
}

impl View for SlackMessageLink {
    type V = SlackLinkView;

    open spec fn view(&self) -> SlackLinkView {
        SlackLinkView {
            workspace: self.workspace@,
            channel_id: self.channel_id@,
            message_ts: self.message_ts@,
            thread_ts: crate::text::opt_text(self.thread_ts),
        }
    }
}

impl Clone for SlackMessageLink {
    fn clone(&self) -> (r: Self)
        ensures
            r@ == self@,
    {
        SlackMessageLink {
            workspace: self.workspace.clone(),
            channel_id: self.channel_id.clone(),
            message_ts: self.message_ts.clone(),
            thread_ts: copy_opt(&self.thread_ts),
        }
    }
}

/// The link that a match stands for, if all its parts are there.
pub open spec fn discord_link(groups: Seq<Option<Seq<char>>>) -> Option<DiscordLinkView> {
    match (
        crate::patterns::group(groups, 1),
        crate::patterns::group(groups, 2),
        crate::patterns::group(groups, 3),
    ) {
        (Some(guild_id), Some(channel_id), Some(message_id)) => Some(
            DiscordLinkView { guild_id, channel_id, message_id },
        ),
        _ => None,
    }
}

/// Two Discord links to one message.
pub open spec fn same_discord_target(a: DiscordLinkView, b: DiscordLinkView) -> bool {
    a.channel_id == b.channel_id && a.message_id == b.message_id
}

/// The links of the matches in order, each target once, under the guild of its
/// first link.
pub open spec fn discord_links(found: Seq<Seq<Option<Seq<char>>>>) -> Seq<DiscordLinkView>
    decreases found.len(),
{
    if found.len() == 0 {
        Seq::empty()
    } else {
        let front = discord_links(found.drop_last());
        match discord_link(found.last()) {
            Some(link) => if discord_seen(front, link) {
                front
            } else {
                front.push(link)
            },
            None => front,
        }
    }
}

pub open spec fn discord_seen(links: Seq<DiscordLinkView>, link: DiscordLinkView) -> bool {
    exists|i: int| 0 <= i < links.len() && same_discord_target(#[trigger] links[i], link)
}

/// The first items, as many as the limit allows.
pub open spec fn limited<T>(items: Seq<T>, limit: nat) -> Seq<T> {
    if items.len() <= limit {
        items
    } else {
        items.take(limit as int)
    }
}

pub open spec fn discord_views(links: Seq<DiscordMessageLink>) -> Seq<DiscordLinkView> {
    links.map_values(|l: DiscordMessageLink| l@)
}

fn discord_link_of(groups: &Vec<Option<String>>) -> (r: Option<DiscordMessageLink>)
    ensures
        match r {
            Some(link) => discord_link(crate::patterns::groups_text(groups@)) == Some(link@),
            None => discord_link(crate::patterns::groups_text(groups@)) is None,
        },
{
    match (group_text(groups, 1), group_text(groups, 2), group_text(groups, 3)) {
        (Some(guild_id), Some(channel_id), Some(message_id)) => Some(
            DiscordMessageLink { guild_id, channel_id, message_id },
        ),
        _ => None,
    }
}

fn discord_listed(links: &Vec<DiscordMessageLink>, link: &DiscordMessageLink) -> (r: bool)
    ensures
        r == discord_seen(discord_views(links@), link@),
{
    let mut i: usize = 0;
    while i < links.len()
        invariant
            i <= links.len(),
            forall|j: int|
                0 <= j < i ==> !same_discord_target(#[trigger] discord_views(links@)[j], link@),
        decreases links.len() - i,
    {
        if links[i].channel_id == link.channel_id && links[i].message_id == link.message_id {
            assert(same_discord_target(discord_views(links@)[i as int], link@));
            return true;
        }
        i += 1;
    }
    false
}

/// The links that the matches of `DISCORD_MESSAGE_LINK` stand for.
pub fn discord_links_of(found: &Vec<Vec<Option<String>>>, limit: usize) -> (r: Vec<
    DiscordMessageLink,
>)
    ensures
        discord_views(r@) == limited(
            discord_links(crate::patterns::matches_text(found@)),
            limit as nat,
        ),
{
    let mut links: Vec<DiscordMessageLink> = Vec::new();
    let ghost all = crate::patterns::matches_text(found@);
    let mut i: usize = 0;
    assert(discord_views(links@) =~= Seq::empty());
    assert(all.take(0) =~= Seq::empty());
    while i < found.len() && links.len() < limit
        invariant
            i <= found.len(),
            links.len() <= limit,
            all == crate::patterns::matches_text(found@),
            discord_views(links@) == discord_links(all.take(i as int)),
        decreases found.len() - i,
    {
        assert(all.take(i + 1).drop_last() =~= all.take(i as int));
        if let Some(link) = discord_link_of(&found[i]) {
            if !discord_listed(&links, &link) {
                let ghost before = links@;
                links.push(link);
                assert(discord_views(links@) =~= discord_views(before).push(link@));
            }
        }
        i += 1;
    }
    proof {
        lemma_discord_links_grow(all, i as int);
        assert(discord_views(links@).len() == links@.len());
        if i == found@.len() {
            assert(all.take(i as int) =~= all);
        }
        assert(discord_links(all).take(links@.len() as int) =~= discord_views(links@));
    }
    links
}

proof fn lemma_discord_links_grow(found: Seq<Seq<Option<Seq<char>>>>, n: int)
    requires
        0 <= n <= found.len(),
    ensures
        discord_links(found.take(n)).len() <= discord_links(found).len(),
        discord_links(found).take(discord_links(found.take(n)).len() as int) == discord_links(
            found.take(n),
        ),
    decreases found.len() - n,
{
    if n == found.len() {
        assert(found.take(n) =~= found);
        assert(discord_links(found).take(discord_links(found).len() as int) =~= discord_links(
            found,
        ));
    } else {
        lemma_discord_links_grow(found, n + 1);
        assert(found.take(n + 1).drop_last() =~= found.take(n));
        let small = discord_links(found.take(n));
        assert(discord_links(found).take(small.len() as int) =~= small) by {
            let large = discord_links(found.take(n + 1));
            assert(large.take(small.len() as int) =~= small);
            assert(discord_links(found).take(large.len() as int).take(small.len() as int)
                =~= discord_links(found).take(small.len() as int));
        }
    }
}

/// The links to Discord messages in a text, in order, each message once.
pub fn discord_message_links(content: &str, limit: usize) -> (r: Vec<DiscordMessageLink>)
    ensures
        discord_views(r@) == match crate::patterns::all_captures_of(
            DISCORD_MESSAGE_LINK@,
            content@,
        ) {
            Some(found) => limited(discord_links(found), limit as nat),
            None => Seq::empty(),
        },
{
    match all_captures(DISCORD_MESSAGE_LINK, content) {
        Some(found) => discord_links_of(&found, limit),
        None => {
            let none: Vec<DiscordMessageLink> = Vec::new();
            assert(discord_views(none@) =~= Seq::empty());
            none
        },
    }
}

/// No two of the links lead to one message.
pub proof fn lemma_discord_links_unique(found: Seq<Seq<Option<Seq<char>>>>, i: int, j: int)
    requires
        0 <= i < j < discord_links(found).len(),
    ensures
        !same_discord_target(discord_links(found)[i], discord_links(found)[j]),
    decreases found.len(),
{
    let front = discord_links(found.drop_last());
    if j < front.len() {
        lemma_discord_links_unique(found.drop_last(), i, j);
    } else {
        assert(discord_links(found)[i] == front[i]);
    }
}

/// Every message that a match names is among the links.
pub proof fn lemma_discord_links_complete(found: Seq<Seq<Option<Seq<char>>>>, k: int)
    requires
        0 <= k < found.len(),
        discord_link(found[k]) is Some,
    ensures
        discord_seen(discord_links(found), discord_link(found[k])->Some_0),
    decreases found.len(),
{
    let front = discord_links(found.drop_last());
    let all = discord_links(found);
    if k < found.len() - 1 {
        assert(found.drop_last()[k] == found[k]);
        lemma_discord_links_complete(found.drop_last(), k);
        let i = choose|i: int|
            0 <= i < front.len() && same_discord_target(
                #[trigger] front[i],
                discord_link(found[k])->Some_0,
            );
        assert(all[i] == front[i]);
    } else if !discord_seen(front, discord_link(found[k])->Some_0) {
        assert(same_discord_target(all[all.len() - 1], discord_link(found[k])->Some_0));
    } else {
        assert(all == front);
    }
}

// ---------------------------------------------------------------------------
// Slack
// ---------------------------------------------------------------------------

/// Only the digits `0` to `9`.
pub open spec fn all_digits(s: Seq<char>) -> bool {
    forall|i: int| 0 <= i < s.len() ==> crate::text::is_ascii_digit(#[trigger] s[i])
}

fn only_digits(s: &[char]) -> (r: bool)
    ensures
        r == all_digits(s@),
{
    let mut i: usize = 0;
    while i < s.len()
        invariant
            i <= s.len(),
            forall|j: int| 0 <= j < i ==> crate::text::is_ascii_digit(#[trigger] s@[j]),
        decreases s.len() - i,
    {
        if !ascii_digit(s[i]) {
            return false;
        }
        i += 1;
    }
    true
}

/// The timestamp in the digits of a permalink: the last six are the fraction.
pub open spec fn permalink_timestamp(raw: Seq<char>) -> Option<Seq<char>> {
    if raw.len() >= 7 && all_digits(raw) {
        Some(raw.take(raw.len() - 6) + "."@ + raw.skip(raw.len() - 6))
    } else {
        None
    }
}

/// The fraction filled up with zeros to six digits.
pub open spec fn micros(s: Seq<char>) -> Seq<char> {
    if s.len() < 6 {
        s + Seq::new((6 - s.len()) as nat, |i: int| '0')
    } else {
        s
    }
}

/// A timestamp with a fraction of six digits, out of one with a fraction or
/// out of the digits of a permalink.
pub open spec fn normal_timestamp(raw: Seq<char>) -> Option<Seq<char>> {
    let dot = crate::text::position(raw, '.');
    if dot < raw.len() {
        let seconds = raw.take(dot);
        let fraction = raw.skip(dot + 1);
        if seconds.len() >= 10 && 1 <= fraction.len() <= 6 && all_digits(seconds) && all_digits(
            fraction,
        ) {
            Some(seconds + "."@ + micros(fraction))
        } else {
            None
        }
    } else if raw.len() >= 16 {
        permalink_timestamp(raw)
    } else {
        None
    }
}

/// The timestamp in the digits of a permalink.
pub fn slack_permalink_timestamp(raw: &str) -> (r: Option<String>)
    ensures
        crate::text::opt_text(r) == permalink_timestamp(raw@),
{
    let cs = chars_of(raw);
    if cs.len() < 7 || !only_digits(cs.as_slice()) {
        return None;
    }
    let split: usize = cs.len() - 6;
    let mut out = string_of(take(cs.as_slice(), split));
    out.push_str(".");
    out.push_str(string_of(skip(cs.as_slice(), split)).as_str());
    Some(out)
}

/// A timestamp in the form that Slack's interfaces take.
pub fn normalize_slack_timestamp(raw: &str) -> (r: Option<String>)
    ensures
        crate::text::opt_text(r) == normal_timestamp(raw@),
{
    proof {
        crate::text::lemma_position(raw@, '.');
    }
    let cs = chars_of(raw);
    let dot: usize = position_of(cs.as_slice(), '.');
    if dot < cs.len() {
        let seconds = take(cs.as_slice(), dot);
        let fraction = skip(cs.as_slice(), dot + 1);
        if seconds.len() < 10 || fraction.len() == 0 || fraction.len() > 6 || !only_digits(seconds)
            || !only_digits(fraction) {
            return None;
        }
        let mut out = string_of(seconds);
        out.push_str(".");
        out.push_str(string_of(fraction).as_str());
        let ghost whole = out@;
        let mut n: usize = fraction.len();
        while n < 6
            invariant
                fraction@.len() <= n <= 6,
                out@ == whole + Seq::new((n - fraction@.len()) as nat, |i: int| '0'),
            decreases 6 - n,
        {
            out.push('0');
            n += 1;
            assert(out@ =~= whole + Seq::new((n - fraction@.len()) as nat, |i: int| '0'));
        }
        assert(out@ =~= seconds@ + "."@ + micros(fraction@));
        return Some(out);
    }
    if cs.len() >= 16 {
        return slack_permalink_timestamp(raw);
    }
    None
}

/// A text with its ASCII letters in lower case.
pub open spec fn ascii_lowered(s: Seq<char>) -> Seq<char> {
    s.map_values(|c: char| crate::text::ascii_lower(c))
}

fn lowered(s: &str) -> (r: String)
    ensures
        r@ == ascii_lowered(s@),
{
    let cs = chars_of(s);
    let mut out = String::new();
    let mut i: usize = 0;
    while i < cs.len()
        invariant
            i <= cs.len(),
            out@ == ascii_lowered(cs@.take(i as int)),
        decreases cs.len() - i,
    {
        out.push(ascii_lower_char(cs[i]));
        i += 1;
        assert(out@ =~= ascii_lowered(cs@.take(i as int)));
    }
    assert(cs@.take(cs@.len() as int) =~= cs@);
    out
}

/// The link that a match of `SLACK_MESSAGE_LINK` stands for, given the capture
/// groups of `SLACK_THREAD_TS` in it. A link that names a thread wrongly is no
/// link.
pub open spec fn slack_link(
    groups: Seq<Option<Seq<char>>>,
    thread: Option<Seq<Option<Seq<char>>>>,
) -> Option<SlackLinkView> {
    let named = match thread {
        Some(t) => crate::patterns::group(t, 1),
        None => None,
    };
    let thread_ts = match named {
        Some(t) => normal_timestamp(t),
        None => None,
    };
    match (
        crate::patterns::group(groups, 0),
        crate::patterns::group(groups, 1),
        crate::patterns::group(groups, 2),
        crate::patterns::group(groups, 3),
    ) {
        (Some(_), Some(workspace), Some(channel_id), Some(digits)) => match permalink_timestamp(
            digits,
        ) {
            Some(message_ts) if named is None || thread_ts is Some => Some(
                SlackLinkView {
                    workspace: ascii_lowered(workspace),
                    channel_id,
                    message_ts,
                    thread_ts,
                },
            ),
            _ => None,
        },
        _ => None,
    }
}

/// Two Slack links to one message.
pub open spec fn same_slack_target(a: SlackLinkView, b: SlackLinkView) -> bool {
    a.workspace == b.workspace && a.channel_id == b.channel_id && a.message_ts == b.message_ts
}

pub open spec fn slack_seen(links: Seq<SlackLinkView>, link: SlackLinkView) -> bool {
    exists|i: int| 0 <= i < links.len() && same_slack_target(#[trigger] links[i], link)
}

/// The links in order, each target once, as it is linked first.
pub open spec fn unique_slack_links(links: Seq<Option<SlackLinkView>>) -> Seq<SlackLinkView>
    decreases links.len(),
{
    if links.len() == 0 {
        Seq::empty()
    } else {
        let front = unique_slack_links(links.drop_last());
        match links.last() {
            Some(link) => if slack_seen(front, link) {
                front
            } else {
                front.push(link)
            },
            None => front,
        }
    }
}

pub open spec fn slack_views(links: Seq<SlackMessageLink>) -> Seq<SlackLinkView> {
    links.map_values(|l: SlackMessageLink| l@)
}

/// The link that a match of `SLACK_MESSAGE_LINK` stands for, given the capture
/// groups of `SLACK_THREAD_TS` in it.
pub fn slack_link_of(groups: &Vec<Option<String>>, thread: &Option<Vec<Option<String>>>) -> (r:
    Option<SlackMessageLink>)
    ensures
        (match r {
            Some(link) => Some(link@),
            None => None,
        }) == slack_link(
            crate::patterns::groups_text(groups@),
            match *thread {
                Some(t) => Some(crate::patterns::groups_text(t@)),
                None => None,
            },
        ),
{
    let named = match thread {
        Some(t) => group_text(t, 1),
        None => None,
    };
    let (whole, workspace, channel, digits) = (
        group_text(groups, 0),
        group_text(groups, 1),
        group_text(groups, 2),
        group_text(groups, 3),
    );
    match (whole, workspace, channel, digits) {
        (Some(_), Some(workspace), Some(channel_id), Some(digits)) => {
            let message_ts = match slack_permalink_timestamp(digits.as_str()) {
                Some(ts) => ts,
                None => {
                    return None;
                },
            };
            let thread_ts = match named {
                Some(value) => match normalize_slack_timestamp(value.as_str()) {
                    Some(ts) => Some(ts),
                    None => {
                        return None;
                    },
                },
                None => None,
            };
            Some(
                SlackMessageLink {
                    workspace: lowered(workspace.as_str()),
                    channel_id,
                    message_ts,
                    thread_ts,
                },
            )
        },
        _ => None,
    }
}

fn slack_listed(links: &Vec<SlackMessageLink>, link: &SlackMessageLink) -> (r: bool)
    ensures
        r == slack_seen(slack_views(links@), link@),
{
    let mut i: usize = 0;
    while i < links.len()
        invariant
            i <= links.len(),
            forall|j: int|
                0 <= j < i ==> !same_slack_target(#[trigger] slack_views(links@)[j], link@),
        decreases links.len() - i,
    {
        if links[i].workspace == link.workspace && links[i].channel_id == link.channel_id
            && links[i].message_ts == link.message_ts {
            assert(same_slack_target(slack_views(links@)[i as int], link@));
            return true;
        }
        i += 1;
    }
    false
}

/// The link of a match in a text, with the thread that its address names.
pub open spec fn slack_link_in(groups: Seq<Option<Seq<char>>>) -> Option<SlackLinkView> {
    match crate::patterns::group(groups, 0) {
        Some(whole) => slack_link(
            groups,
            crate::patterns::first_captures_of(SLACK_THREAD_TS@, whole),
        ),
        None => None,
    }
}

/// What the matches stand for.
pub open spec fn slack_links_in(found: Seq<Seq<Option<Seq<char>>>>) -> Seq<Option<SlackLinkView>> {
    found.map_values(|groups: Seq<Option<Seq<char>>>| slack_link_in(groups))
}

fn slack_link_found(groups: &Vec<Option<String>>) -> (r: Option<SlackMessageLink>)
    ensures
        (match r {
            Some(link) => Some(link@),
            None => None,
        }) == slack_link_in(crate::patterns::groups_text(groups@)),
{
    match group_text(groups, 0) {
        Some(whole) => slack_link_of(groups, &first_captures(SLACK_THREAD_TS, whole.as_str())),
        None => None,
    }
}

/// What matches stand for, as texts.
pub open spec fn slack_options(links: Seq<Option<SlackMessageLink>>) -> Seq<
    Option<SlackLinkView>,
> {
    links.map_values(
        |l: Option<SlackMessageLink>|
            match l {
                Some(link) => Some(link@),
                None => None,
            },
    )
}

/// The links among what the matches stand for, in order, each message once.
pub fn slack_links_of(links: Vec<Option<SlackMessageLink>>, limit: usize) -> (r: Vec<
    SlackMessageLink,
>)
    ensures
        slack_views(r@) == limited(unique_slack_links(slack_options(links@)), limit as nat),
{
    let mut out: Vec<SlackMessageLink> = Vec::new();
    let ghost all = slack_options(links@);
    let mut i: usize = 0;
    assert(slack_views(out@) =~= Seq::empty());
    assert(all.take(0) =~= Seq::empty());
    while i < links.len() && out.len() < limit
        invariant
            i <= links@.len(),
            out.len() <= limit,
            all == slack_options(links@),
            slack_views(out@) == unique_slack_links(all.take(i as int)),
        decreases links.len() - i,
    {
        assert(all.take(i + 1).drop_last() =~= all.take(i as int));
        if let Some(link) = &links[i] {
            assert(all[i as int] == Some(link@));
            if !slack_listed(&out, link) {
                let ghost before = out@;
                out.push(link.clone());
                assert(slack_views(out@) =~= slack_views(before).push(link@));
            }
        }
        i += 1;
    }
    proof {
        lemma_slack_links_grow(all, i as int);
        assert(slack_views(out@).len() == out@.len());
        if i == links@.len() {
            assert(all.take(i as int) =~= all);
        }
        assert(unique_slack_links(all).take(out@.len() as int) =~= slack_views(out@));
    }
    out
}

/// The links to Slack messages in a text, in order, each message once.
pub fn slack_message_links(content: &str, limit: usize) -> (r: Vec<SlackMessageLink>)
    ensures
        slack_views(r@) == match crate::patterns::all_captures_of(SLACK_MESSAGE_LINK@, content@) {
            Some(found) => limited(unique_slack_links(slack_links_in(found)), limit as nat),
            None => Seq::empty(),
        },
{
    let found = match all_captures(SLACK_MESSAGE_LINK, content) {
        Some(found) => found,
        None => {
            let none: Vec<SlackMessageLink> = Vec::new();
            assert(slack_views(none@) =~= Seq::empty());
            return none;
        },
    };
    let ghost all = slack_links_in(crate::patterns::matches_text(found@));
    let mut links: Vec<Option<SlackMessageLink>> = Vec::new();
    let mut i: usize = 0;
    while i < found.len()
        invariant
            i <= found@.len(),
            all == slack_links_in(crate::patterns::matches_text(found@)),
            slack_options(links@) =~= all.take(i as int),
        decreases found.len() - i,
    {
        let ghost before = links@;
        links.push(slack_link_found(&found[i]));
        assert(slack_options(links@) =~= slack_options(before).push(all[i as int]));
        i += 1;
    }
    assert(all.take(all.len() as int) =~= all);
    slack_links_of(links, limit)
}

proof fn lemma_slack_links_grow(links: Seq<Option<SlackLinkView>>, n: int)
    requires
        0 <= n <= links.len(),
    ensures
        unique_slack_links(links.take(n)).len() <= unique_slack_links(links).len(),
        unique_slack_links(links).take(unique_slack_links(links.take(n)).len() as int)
            == unique_slack_links(links.take(n)),
    decreases links.len() - n,
{
    let all = unique_slack_links(links);
    let small = unique_slack_links(links.take(n));
    if n == links.len() {
        assert(links.take(n) =~= links);
        assert(all.take(all.len() as int) =~= all);
    } else {
        lemma_slack_links_grow(links, n + 1);
        assert(links.take(n + 1).drop_last() =~= links.take(n));
        let large = unique_slack_links(links.take(n + 1));
        assert(large.take(small.len() as int) =~= small);
        assert(all.take(large.len() as int).take(small.len() as int) =~= all.take(
            small.len() as int,
        ));
    }
}

/// No two of the links lead to one message of one workspace.
pub proof fn lemma_slack_links_unique(links: Seq<Option<SlackLinkView>>, i: int, j: int)
    requires
        0 <= i < j < unique_slack_links(links).len(),
    ensures
        !same_slack_target(unique_slack_links(links)[i], unique_slack_links(links)[j]),
    decreases links.len(),
{
    let front = unique_slack_links(links.drop_last());
    if j < front.len() {
        lemma_slack_links_unique(links.drop_last(), i, j);
    } else {
        assert(unique_slack_links(links)[i] == front[i]);
    }
}

/// Every message that a match names is among the links.
pub proof fn lemma_slack_links_complete(links: Seq<Option<SlackLinkView>>, k: int)
    requires
        0 <= k < links.len(),
        links[k] is Some,
    ensures
        slack_seen(unique_slack_links(links), links[k]->Some_0),
    decreases links.len(),
{
    let front = unique_slack_links(links.drop_last());
    let all = unique_slack_links(links);
    if k < links.len() - 1 {
        assert(links.drop_last()[k] == links[k]);
        lemma_slack_links_complete(links.drop_last(), k);
        let i = choose|i: int|
            0 <= i < front.len() && same_slack_target(#[trigger] front[i], links[k]->Some_0);
        assert(all[i] == front[i]);
    } else if !slack_seen(front, links[k]->Some_0) {
        assert(same_slack_target(all[all.len() - 1], links[k]->Some_0));
    } else {
        assert(all == front);
    }
}

/// Links of different workspaces are different links.
pub proof fn lemma_slack_identity_has_workspace(a: SlackLinkView, b: SlackLinkView)
    requires
        a.workspace != b.workspace,
    ensures
        unique_slack_links(seq![Some(a), Some(b)]) == seq![a, b],
{
    let both = seq![Some(a), Some(b)];
    assert(both.drop_last() =~= seq![Some(a)]);
    assert(seq![Some(a)].drop_last() =~= Seq::empty());
    assert(unique_slack_links(seq![Some(a)].drop_last()) =~= Seq::empty());
    assert(unique_slack_links(seq![Some(a)]) =~= seq![a]);
    assert(unique_slack_links(both) =~= seq![a, b]);
}

/// The fraction of a timestamp has six digits, and normalizing it again leaves
/// it as it is.
pub proof fn lemma_normal_timestamp_is_normal(raw: Seq<char>)
    requires
        normal_timestamp(raw) is Some,
    ensures
        normal_timestamp(normal_timestamp(raw)->Some_0) == normal_timestamp(raw),
        normal_timestamp(raw)->Some_0.len() >= 17,
{
    reveal_strlit(".");
    let out = normal_timestamp(raw)->Some_0;
    let dot = crate::text::position(raw, '.');
    crate::text::lemma_position(raw, '.');
    let (seconds, fraction) = if dot < raw.len() {
        (raw.take(dot), micros(raw.skip(dot + 1)))
    } else {
        (raw.take(raw.len() - 6), raw.skip(raw.len() - 6))
    };
    assert(out == seconds + "."@ + fraction);
    assert(fraction.len() == 6);
    assert(seconds.len() >= 10);
    assert(all_digits(seconds));
    assert(all_digits(fraction));
    assert forall|i: int| 0 <= i < seconds.len() implies out[i] != '.' by {
        assert(out[i] == seconds[i]);
        assert(crate::text::is_ascii_digit(seconds[i]));
    }
    crate::text::lemma_position_is(out, '.', seconds.len() as int);
    assert(out.take(seconds.len() as int) =~= seconds);
    assert(out.skip(seconds.len() as int + 1) =~= fraction);
}

// ---------------------------------------------------------------------------
// Recovered messages
// ---------------------------------------------------------------------------

#[derive(Debug)]
pub struct RecoveredMessage {
    pub channel_id: String,
    pub thread_id: Option<String>,
    pub message_id: String,
    pub sender_id: Option<String>,
    pub sender_name: Option<String>,
    pub timestamp: Option<String>,
    pub content: String,
    pub attachment_count: usize,
    pub relations: Vec<String>,
}

pub struct MessageView {
    pub channel_id: Seq<char>,
    pub thread_id: Option<Seq<char>>,
    pub message_id: Seq<char>,
    pub sender_id: Option<Seq<char>>,
    pub sender_name: Option<Seq<char>>,
    pub timestamp: Option<Seq<char>>,
    pub content: Seq<char>,
    pub attachment_count: usize,
    pub relations: Seq<Seq<char>>,
}

impl View for RecoveredMessage {
    type V = MessageView;

    open spec fn view(&self) -> MessageView {
        MessageView {
            channel_id: self.channel_id@,
            thread_id: crate::text::opt_text(self.thread_id),
            message_id: self.message_id@,
            sender_id: crate::text::opt_text(self.sender_id),
            sender_name: crate::text::opt_text(self.sender_name),
            timestamp: crate::text::opt_text(self.timestamp),
            content: self.content@,
            attachment_count: self.attachment_count,
            relations: crate::text::texts(self.relations@),
        }
    }
}

impl Clone for RecoveredMessage {
    fn clone(&self) -> (r: Self)
        ensures
            r@ == self@,
    {
        RecoveredMessage {
            channel_id: self.channel_id.clone(),
            thread_id: copy_opt(&self.thread_id),
            message_id: self.message_id.clone(),
            sender_id: copy_opt(&self.sender_id),
            sender_name: copy_opt(&self.sender_name),
            timestamp: copy_opt(&self.timestamp),
            content: self.content.clone(),
            attachment_count: self.attachment_count,
            relations: copy_strings(&self.relations),
        }
    }
}

/// Something that could not be fetched.
#[derive(Debug)]
pub struct ContextFailure {
    pub operation: String,
    pub code: String,
    pub source_ref: Option<String>,
}

pub struct FailureView {
    pub operation: Seq<char>,
    pub code: Seq<char>,
    pub source_ref: Option<Seq<char>>,
}

impl View for ContextFailure {
    type V = FailureView;

    open spec fn view(&self) -> FailureView {
        FailureView {
            operation: self.operation@,
            code: self.code@,
            source_ref: crate::text::opt_text(self.source_ref),
        }
    }
}

impl Clone for ContextFailure {
    fn clone(&self) -> (r: Self)
        ensures
            r@ == self@,
    {
        ContextFailure {
            operation: self.operation.clone(),
            code: self.code.clone(),
            source_ref: copy_opt(&self.source_ref),
        }
    }
}

/// What was recovered, within the budgets.
#[derive(Debug)]
pub struct RecoveredContext {
    pub schema: String,
    pub messages: Vec<RecoveredMessage>,
    pub incomplete: bool,
    pub failures: Vec<ContextFailure>,
}

pub struct ContextView {
    pub schema: Seq<char>,
    pub messages: Seq<MessageView>,
    pub incomplete: bool,
    pub failures: Seq<FailureView>,
}

impl View for RecoveredContext {
    type V = ContextView;

    open spec fn view(&self) -> ContextView {
        ContextView {
            schema: self.schema@,
            messages: message_views(self.messages@),
            incomplete: self.incomplete,
            failures: failure_views(self.failures@),
        }
    }
}

impl Clone for RecoveredContext {
    fn clone(&self) -> (r: Self)
        ensures
            r@ == self@,
    {
        let mut messages: Vec<RecoveredMessage> = Vec::new();
        let mut i: usize = 0;
        while i < self.messages.len()
            invariant
                i <= self.messages.len(),
                message_views(messages@) =~= message_views(self.messages@).take(i as int),
            decreases self.messages.len() - i,
        {
            let ghost before = messages@;
            messages.push(self.messages[i].clone());
            assert(message_views(messages@) =~= message_views(before).push(
                self.messages@[i as int]@,
            ));
            i += 1;
        }
        let mut failures: Vec<ContextFailure> = Vec::new();
        let mut k: usize = 0;
        while k < self.failures.len()
            invariant
                k <= self.failures.len(),
                failure_views(failures@) =~= failure_views(self.failures@).take(k as int),
            decreases self.failures.len() - k,
        {
            let ghost before = failures@;
            failures.push(self.failures[k].clone());
            assert(failure_views(failures@) =~= failure_views(before).push(
                self.failures@[k as int]@,
            ));
            k += 1;
        }
        assert(message_views(messages@) =~= message_views(self.messages@));
        assert(failure_views(failures@) =~= failure_views(self.failures@));
        RecoveredContext {
            schema: self.schema.clone(),
            messages,
            incomplete: self.incomplete,
            failures,
        }
    }
}

pub open spec fn message_views(messages: Seq<RecoveredMessage>) -> Seq<MessageView> {
    messages.map_values(|m: RecoveredMessage| m@)
}

pub open spec fn failure_views(failures: Seq<ContextFailure>) -> Seq<FailureView> {
    failures.map_values(|f: ContextFailure| f@)
}

/// Stands at the end of a text that was cut.
pub const TRUNCATION_MARKER: &'static str = "…[truncated]";

/// The text, or its beginning with the marker, within the limit. Where the
/// limit has no room for the marker, the beginning alone.
pub open spec fn truncated(value: Seq<char>, limit: nat) -> Seq<char> {
    if value.len() <= limit {
        value
    } else if limit <= TRUNCATION_MARKER@.len() {
        value.take(limit as int)
    } else {
        value.take(limit - TRUNCATION_MARKER@.len()) + TRUNCATION_MARKER@
    }
}

/// A text within the limit never gets longer, nor longer than the limit.
pub proof fn lemma_truncated_fits(value: Seq<char>, limit: nat)
    ensures
        truncated(value, limit).len() <= limit,
        truncated(value, limit).len() <= value.len(),
        truncated(value, limit) == value <==> value.len() <= limit,
{
}

/// Cuts a text to the limit; says whether anything was cut.
pub fn truncate_chars(value: &str, limit: usize) -> (r: (String, bool))
    ensures
        r.0@ == truncated(value@, limit as nat),
        r.1 == (value@.len() > limit),
{
    let cs = chars_of(value);
    if cs.len() <= limit {
        return (value.to_owned(), false);
    }
    let marker = chars_of(TRUNCATION_MARKER);
    if limit <= marker.len() {
        return (string_of(take(cs.as_slice(), limit)), true);
    }
    let mut out = string_of(take(cs.as_slice(), limit - marker.len()));
    out.push_str(TRUNCATION_MARKER);
    (out, true)
}

/// How soon a message gets its share of the budget: first what the user
/// referred to, then what stands around it, then the rest.
pub open spec fn priority(relations: Seq<Seq<char>>) -> u8 {
    if relations.contains("native_reply"@) || relations.contains("thread_root"@)
        || relations.contains("linked_target"@) {
        3
    } else if relations.contains("linked_neighbor"@) {
        2
    } else {
        1
    }
}

fn has_text(values: &Vec<String>, value: &str) -> (r: bool)
    ensures
        r == crate::text::texts(values@).contains(value@),
{
    let mut i: usize = 0;
    while i < values.len()
        invariant
            i <= values.len(),
            forall|j: int| 0 <= j < i ==> crate::text::texts(values@)[j] != value@,
        decreases values.len() - i,
    {
        if same_str(values[i].as_str(), value) {
            assert(crate::text::texts(values@)[i as int] == value@);
            return true;
        }
        i += 1;
    }
    false
}

/// How soon a message gets its share of the budget.
pub fn message_priority(message: &RecoveredMessage) -> (r: u8)
    ensures
        r == priority(message@.relations),
{
    if has_text(&message.relations, "native_reply") || has_text(&message.relations, "thread_root")
        || has_text(&message.relations, "linked_target") {
        3
    } else if has_text(&message.relations, "linked_neighbor") {
        2
    } else {
        1
    }
}

/// The characters of the messages that get their share before the `i`th message
/// of priority `p`, among the first `n`.
pub open spec fn ahead(messages: Seq<MessageView>, p: u8, i: int, n: int) -> nat
    decreases n,
{
    if n <= 0 {
        0
    } else {
        let m = messages[n - 1];
        let q = priority(m.relations);
        ahead(messages, p, i, n - 1) + if q > p || (q == p && n - 1 < i) {
            m.content.len()
        } else {
            0
        }
    }
}

/// What is left of the budget for the `i`th message.
pub open spec fn share(messages: Seq<MessageView>, i: int, budget: nat) -> nat {
    left(
        ahead(messages, priority(messages[i].relations), i, messages.len() as int),
        budget,
    )
}

pub open spec fn left(used: nat, budget: nat) -> nat {
    if used <= budget {
        (budget - used) as nat
    } else {
        0
    }
}

/// The messages that have a share, each cut to it, in their order, among the
/// first `n`.
pub open spec fn selected(messages: Seq<MessageView>, budget: nat, n: int) -> Seq<MessageView>
    decreases n,
{
    if n <= 0 {
        Seq::empty()
    } else {
        let front = selected(messages, budget, n - 1);
        let m = messages[n - 1];
        let s = share(messages, n - 1, budget);
        if s > 0 {
            front.push(MessageView { content: truncated(m.content, s), ..m })
        } else {
            front
        }
    }
}

/// Some message is cut or left out for want of budget.
pub open spec fn over_budget(messages: Seq<MessageView>, budget: nat) -> bool {
    exists|i: int| 0 <= i < messages.len() && falls_short(messages, i, budget)
}

pub open spec fn falls_short(messages: Seq<MessageView>, i: int, budget: nat) -> bool {
    share(messages, i, budget) == 0 || messages[i].content.len() > share(messages, i, budget)
}

/// Two messages that are one.
pub open spec fn same_message(a: MessageView, b: MessageView) -> bool {
    a.channel_id == b.channel_id && a.message_id == b.message_id
}

/// What a collector holds after a message was added under a relation. A
/// message that is there already only gains the relation; a new one is cut to
/// the limit.
pub open spec fn with_message(
    messages: Seq<MessageView>,
    message: MessageView,
    relation: Seq<char>,
    limit: nat,
) -> Seq<MessageView> {
    let k = place(messages, message, 0);
    if k < messages.len() {
        if messages[k].relations.contains(relation) {
            messages
        } else {
            messages.update(
                k,
                MessageView { relations: messages[k].relations.push(relation), ..messages[k] },
            )
        }
    } else {
        messages.push(
            MessageView {
                content: truncated(message.content, limit),
                relations: seq![relation],
                ..message
            },
        )
    }
}

/// Where a message stands from `i` on; the number of messages if it does not.
pub open spec fn place(messages: Seq<MessageView>, message: MessageView, i: int) -> int
    decreases messages.len() - i,
{
    if i >= messages.len() {
        messages.len() as int
    } else if same_message(messages[i], message) {
        i
    } else {
        place(messages, message, i + 1)
    }
}

/// Where the message stands, it does; before that, it does not.
pub proof fn lemma_place(messages: Seq<MessageView>, message: MessageView, i: int)
    requires
        0 <= i <= messages.len(),
    ensures
        i <= place(messages, message, i) <= messages.len(),
        place(messages, message, i) < messages.len() ==> same_message(
            messages[place(messages, message, i)],
            message,
        ),
        forall|j: int|
            i <= j < place(messages, message, i) ==> !same_message(#[trigger] messages[j], message),
    decreases messages.len() - i,
{
    if i < messages.len() && !same_message(messages[i], message) {
        lemma_place(messages, message, i + 1);
    }
}

/// Collects messages without duplicates, within the budgets.
#[derive(Debug)]
pub struct ContextCollector<'a> {
    config: &'a ContextRecoveryConfig,
    messages: Vec<RecoveredMessage>,
    failures: Vec<ContextFailure>,
    incomplete: bool,
}

impl<'a> ContextCollector<'a> {
    /// The messages so far, in the order in which they came first.
    pub closed spec fn messages(&self) -> Seq<MessageView> {
        message_views(self.messages@)
    }

    pub closed spec fn failures(&self) -> Seq<FailureView> {
        failure_views(self.failures@)
    }

    pub closed spec fn incomplete(&self) -> bool {
        self.incomplete
    }

    pub closed spec fn max_message_chars(&self) -> nat {
        self.config.max_message_chars as nat
    }

    pub closed spec fn max_total_chars(&self) -> nat {
        self.config.max_total_chars as nat
    }

    /// An empty collector.
    pub fn new(config: &'a ContextRecoveryConfig) -> (r: Self)
        ensures
            r.messages() == Seq::<MessageView>::empty(),
            r.failures() == Seq::<FailureView>::empty(),
            !r.incomplete(),
            r.max_message_chars() == config.max_message_chars,
            r.max_total_chars() == config.max_total_chars,
    {
        let r = ContextCollector {
            config,
            messages: Vec::new(),
            failures: Vec::new(),
            incomplete: false,
        };
        assert(r.messages() =~= Seq::<MessageView>::empty());
        assert(r.failures() =~= Seq::<FailureView>::empty());
        r
    }

    fn index_of(&self, message: &RecoveredMessage) -> (r: usize)
        ensures
            r == place(self.messages(), message@, 0),
    {
        let mut i: usize = 0;
        while i < self.messages.len()
            invariant
                i <= self.messages.len(),
                place(self.messages(), message@, 0) == place(self.messages(), message@, i as int),
            decreases self.messages.len() - i,
        {
            let m = &self.messages[i];
            assert(self.messages()[i as int] == m@);
            if m.channel_id == message.channel_id && m.message_id == message.message_id {
                return i;
            }
            i += 1;
        }
        i
    }

    /// Adds a message under a relation.
    pub fn add(&mut self, message: RecoveredMessage, relation: &str)
        ensures
            final(self).messages() == with_message(
                old(self).messages(),
                message@,
                relation@,
                old(self).max_message_chars(),
            ),
            final(self).incomplete() == (old(self).incomplete() || (place(
                old(self).messages(),
                message@,
                0,
            ) == old(self).messages().len() && message@.content.len() > old(
                self,
            ).max_message_chars())),
            final(self).incomplete() == (old(self).incomplete() || cut_on_arrival(
                old(self).messages(),
                message@,
                old(self).max_message_chars(),
            )),
            final(self).failures() == old(self).failures(),
            final(self).max_message_chars() == old(self).max_message_chars(),
            final(self).max_total_chars() == old(self).max_total_chars(),
    {
        let ghost before = self.messages@;
        proof {
            lemma_place(self.messages(), message@, 0);
        }
        let k: usize = self.index_of(&message);
        if k < self.messages.len() {
            if !has_text(&self.messages[k].relations, relation) {
                let mut m = self.messages[k].clone();
                let ghost relations = m.relations@;
                m.relations.push(relation.to_owned());
                assert(crate::text::texts(m.relations@) =~= crate::text::texts(relations).push(
                    relation@,
                ));
                self.messages.set(k, m);
                assert(message_views(self.messages@) =~= message_views(before).update(
                    k as int,
                    m@,
                ));
            }
            return;
        }
        let mut message = message;
        let (content, cut) = truncate_chars(
            message.content.as_str(),
            self.config.max_message_chars,
        );
        message.content = content;
        message.relations = vec![relation.to_owned()];
        assert(crate::text::texts(message.relations@) =~= seq![relation@]);
        self.incomplete = self.incomplete || cut;
        self.messages.push(message);
        assert(message_views(self.messages@) =~= message_views(before).push(message@));
    }

    /// Notes something that could not be fetched.
    pub fn failure(&mut self, operation: &str, code: &str, source_ref: Option<String>)
        ensures
            final(self).messages() == old(self).messages(),
            final(self).incomplete(),
            final(self).failures() == old(self).failures().push(
                FailureView {
                    operation: operation@,
                    code: code@,
                    source_ref: crate::text::opt_text(source_ref),
                },
            ),
            final(self).max_message_chars() == old(self).max_message_chars(),
            final(self).max_total_chars() == old(self).max_total_chars(),
    {
        let ghost before = self.failures@;
        self.incomplete = true;
        let failure = ContextFailure {
            operation: operation.to_owned(),
            code: code.to_owned(),
            source_ref,
        };
        self.failures.push(failure);
        assert(failure_views(self.failures@) =~= failure_views(before).push(failure@));
    }

    /// The share of the budget that each message has.
    fn shares(&self) -> (r: Vec<usize>)
        ensures
            r@.len() == self.messages().len(),
            forall|i: int|
                0 <= i < r@.len() ==> (#[trigger] r@[i]) == share(
                    self.messages(),
                    i,
                    self.max_total_chars(),
                ),
    {
        let ghost messages = self.messages();
        let ghost budget = self.max_total_chars();
        let mut shares: Vec<usize> = Vec::new();
        let mut priorities: Vec<u8> = Vec::new();
        let mut i: usize = 0;
        while i < self.messages.len()
            invariant
                i <= self.messages.len(),
                messages == self.messages(),
                shares@.len() == i,
                priorities@.len() == i,
                forall|j: int|
                    0 <= j < i ==> (#[trigger] priorities@[j]) == priority(messages[j].relations),
            decreases self.messages.len() - i,
        {
            shares.push(0);
            priorities.push(message_priority(&self.messages[i]));
            i += 1;
        }
        let mut remaining: usize = self.config.max_total_chars;
        let mut p: u8 = 3;
        proof {
            lemma_none_ahead(messages, messages.len() as int);
        }
        while p > 0
            invariant
                p <= 3,
                messages == self.messages(),
                budget == self.max_total_chars(),
                shares@.len() == messages.len(),
                priorities@.len() == messages.len(),
                self.messages@.len() == messages.len(),
                forall|j: int|
                    0 <= j < messages.len() ==> (#[trigger] priorities@[j]) == priority(
                        messages[j].relations,
                    ),
                remaining == left(ahead(messages, p, 0, messages.len() as int), budget),
                forall|j: int|
                    0 <= j < messages.len() && priorities@[j] > p ==> (#[trigger] shares@[j])
                        == share(messages, j, budget),
            decreases p,
        {
            let mut i: usize = 0;
            while i < self.messages.len()
                invariant
                    1 <= p <= 3,
                    i <= self.messages.len(),
                    messages == self.messages(),
                    budget == self.max_total_chars(),
                    shares@.len() == messages.len(),
                    priorities@.len() == messages.len(),
                    self.messages@.len() == messages.len(),
                    forall|j: int|
                        0 <= j < messages.len() ==> (#[trigger] priorities@[j]) == priority(
                            messages[j].relations,
                        ),
                    remaining == left(ahead(messages, p, i as int, messages.len() as int), budget),
                    forall|j: int|
                        0 <= j < messages.len() && (priorities@[j] > p || (priorities@[j] == p && j
                            < i)) ==> (#[trigger] shares@[j]) == share(messages, j, budget),
                decreases self.messages.len() - i,
            {
                proof {
                    lemma_ahead_step(messages, p, i as int, messages.len() as int);
                    assert(messages[i as int] == self.messages@[i as int]@);
                }
                if priorities[i] == p {
                    shares.set(i, remaining);
                    let len: usize = chars_of(self.messages[i].content.as_str()).len();
                    remaining = if len <= remaining {
                        remaining - len
                    } else {
                        0
                    };
                }
                i += 1;
            }
            proof {
                lemma_ahead_next(messages, p, messages.len() as int);
            }
            p -= 1;
        }
        shares
    }

    /// What was collected, within the budget.
    pub fn finish(self) -> (r: Option<RecoveredContext>)
        ensures
            match r {
                Some(context) => context@ == (ContextView {
                    schema: CONTEXT_SCHEMA@,
                    messages: selected(
                        self.messages(),
                        self.max_total_chars(),
                        self.messages().len() as int,
                    ),
                    incomplete: self.incomplete() || over_budget(
                        self.messages(),
                        self.max_total_chars(),
                    ),
                    failures: self.failures(),
                }),
                None => false,
            },
            r is Some && r->0@ == context_of(
                self.messages(),
                self.max_total_chars(),
                self.incomplete(),
                self.failures(),
            ),
    {
        let ghost messages = self.messages();
        let ghost budget = self.max_total_chars();
        let shares = self.shares();
        let mut kept: Vec<RecoveredMessage> = Vec::new();
        let mut short = false;
        let mut i: usize = 0;
        assert(message_views(kept@) =~= Seq::empty());
        while i < self.messages.len()
            invariant
                i <= self.messages.len(),
                messages == self.messages(),
                budget == self.max_total_chars(),
                self.messages@.len() == messages.len(),
                shares@.len() == messages.len(),
                forall|j: int|
                    0 <= j < shares@.len() ==> (#[trigger] shares@[j]) == share(
                        messages,
                        j,
                        budget,
                    ),
                message_views(kept@) == selected(messages, budget, i as int),
                short == exists|j: int| 0 <= j < i && falls_short(messages, j, budget),
            decreases self.messages.len() - i,
        {
            let ghost before = kept@;
            let s: usize = shares[i];
            assert(messages[i as int] == self.messages@[i as int]@);
            assert(s == share(messages, i as int, budget));
            if s > 0 {
                let mut m = self.messages[i].clone();
                let (content, cut) = truncate_chars(m.content.as_str(), s);
                m.content = content;
                kept.push(m);
                assert(message_views(kept@) =~= message_views(before).push(m@));
                if cut {
                    assert(falls_short(messages, i as int, budget));
                    short = true;
                }
            } else {
                assert(falls_short(messages, i as int, budget));
                short = true;
            }
            i += 1;
        }
        Some(
            RecoveredContext {
                schema: CONTEXT_SCHEMA.to_owned(),
                messages: kept,
                incomplete: self.incomplete || short,
                failures: self.failures,
            },
        )
    }
}

proof fn lemma_none_ahead(messages: Seq<MessageView>, n: int)
    requires
        n <= messages.len(),
    ensures
        ahead(messages, 3, 0, n) == 0,
    decreases n,
{
    if n > 0 {
        lemma_none_ahead(messages, n - 1);
    }
}

proof fn lemma_ahead_step(messages: Seq<MessageView>, p: u8, i: int, n: int)
    requires
        0 <= i,
        n <= messages.len(),
    ensures
        ahead(messages, p, i + 1, n) == ahead(messages, p, i, n) + if i < n && priority(
            messages[i].relations,
        ) == p {
            messages[i].content.len()
        } else {
            0
        },
    decreases n,
{
    if n > 0 {
        lemma_ahead_step(messages, p, i, n - 1);
    }
}

proof fn lemma_ahead_next(messages: Seq<MessageView>, p: u8, n: int)
    requires
        p > 0,
        n <= messages.len(),
    ensures
        ahead(messages, p, messages.len() as int, n) == ahead(messages, (p - 1) as u8, 0, n),
    decreases n,
{
    if n > 0 {
        lemma_ahead_next(messages, p, n - 1);
    }
}

// ---------------------------------------------------------------------------
// The budgets
// ---------------------------------------------------------------------------

/// The characters of all messages together.
pub open spec fn total_chars(messages: Seq<MessageView>) -> nat
    decreases messages.len(),
{
    if messages.len() == 0 {
        0
    } else {
        total_chars(messages.drop_last()) + messages.last().content.len()
    }
}

/// The characters that a message keeps.
spec fn granted(messages: Seq<MessageView>, i: int, budget: nat) -> nat {
    let s = share(messages, i, budget);
    if s > 0 {
        truncated(messages[i].content, s).len()
    } else {
        0
    }
}

/// Like `ahead`, of the characters that the messages keep.
spec fn granted_ahead(messages: Seq<MessageView>, p: u8, i: int, n: int, budget: nat) -> nat
    decreases n,
{
    if n <= 0 {
        0
    } else {
        let q = priority(messages[n - 1].relations);
        granted_ahead(messages, p, i, n - 1, budget) + if q > p || (q == p && n - 1 < i) {
            granted(messages, n - 1, budget)
        } else {
            0
        }
    }
}

proof fn lemma_granted_step(messages: Seq<MessageView>, p: u8, i: int, n: int, budget: nat)
    requires
        0 <= i,
        n <= messages.len(),
    ensures
        granted_ahead(messages, p, i + 1, n, budget) == granted_ahead(messages, p, i, n, budget)
            + if i < n && priority(messages[i].relations) == p {
            granted(messages, i, budget)
        } else {
            0
        },
    decreases n,
{
    if n > 0 {
        lemma_granted_step(messages, p, i, n - 1, budget);
    }
}

proof fn lemma_granted_next(messages: Seq<MessageView>, p: u8, n: int, budget: nat)
    requires
        p > 0,
        n <= messages.len(),
    ensures
        granted_ahead(messages, p, messages.len() as int, n, budget) == granted_ahead(
            messages,
            (p - 1) as u8,
            0,
            n,
            budget,
        ),
    decreases n,
{
    if n > 0 {
        lemma_granted_next(messages, p, n - 1, budget);
    }
}

proof fn lemma_none_granted(messages: Seq<MessageView>, n: int, budget: nat)
    requires
        n <= messages.len(),
    ensures
        granted_ahead(messages, 3, 0, n, budget) == 0,
    decreases n,
{
    if n > 0 {
        lemma_none_granted(messages, n - 1, budget);
    }
}

proof fn lemma_within_budget(messages: Seq<MessageView>, p: u8, i: int, budget: nat)
    requires
        p <= 3,
        0 <= i <= messages.len(),
    ensures
        granted_ahead(messages, p, i, messages.len() as int, budget) + left(
            ahead(messages, p, i, messages.len() as int),
            budget,
        ) == budget,
    decreases 3 - p, i,
{
    let n = messages.len() as int;
    if i > 0 {
        lemma_within_budget(messages, p, i - 1, budget);
        lemma_ahead_step(messages, p, i - 1, n);
        lemma_granted_step(messages, p, i - 1, n, budget);
        lemma_truncated_fits(messages[i - 1].content, share(messages, i - 1, budget));
    } else if p < 3 {
        lemma_within_budget(messages, (p + 1) as u8, n, budget);
        lemma_ahead_next(messages, (p + 1) as u8, n);
        lemma_granted_next(messages, (p + 1) as u8, n, budget);
    } else {
        lemma_none_ahead(messages, n);
        lemma_none_granted(messages, n, budget);
    }
}

proof fn lemma_selected_total(messages: Seq<MessageView>, budget: nat, n: int)
    requires
        0 <= n <= messages.len(),
    ensures
        total_chars(selected(messages, budget, n)) == granted_ahead(messages, 0, 0, n, budget),
    decreases n,
{
    if n > 0 {
        lemma_selected_total(messages, budget, n - 1);
        let front = selected(messages, budget, n - 1);
        let all = selected(messages, budget, n);
        if share(messages, n - 1, budget) > 0 {
            assert(all.drop_last() =~= front);
        }
    }
}

/// What is handed out never exceeds the total budget.
pub proof fn lemma_total_within_budget(messages: Seq<MessageView>, budget: nat)
    ensures
        total_chars(selected(messages, budget, messages.len() as int)) <= budget,
{
    lemma_selected_total(messages, budget, messages.len() as int);
    lemma_within_budget(messages, 0, 0, budget);
}

/// Where a message is left out, the others use the whole budget.
pub proof fn lemma_left_out_only_when_used_up(messages: Seq<MessageView>, i: int, budget: nat)
    requires
        0 <= i < messages.len(),
        share(messages, i, budget) == 0,
    ensures
        total_chars(selected(messages, budget, messages.len() as int)) == budget,
{
    let n = messages.len() as int;
    lemma_selected_total(messages, budget, n);
    lemma_within_budget(messages, 0, 0, budget);
    lemma_ahead_monotone(messages, priority(messages[i].relations), i, 0, 0, n);
}

/// No message is cut or left out in favour of one of lower rank: whatever comes
/// after a message that falls short gets nothing.
pub proof fn lemma_none_cut_in_favour(messages: Seq<MessageView>, j: int, i: int, budget: nat)
    requires
        0 <= i < messages.len(),
        0 <= j < messages.len(),
        outranks(messages, j, i),
        falls_short(messages, j, budget),
    ensures
        share(messages, i, budget) == 0,
{
    let n = messages.len() as int;
    let p = priority(messages[j].relations);
    lemma_ahead_step(messages, p, j, n);
    lemma_ahead_monotone(messages, p, j + 1, priority(messages[i].relations), i, n);
}

/// A message comes before another: by its priority, or among equals by its
/// place.
pub open spec fn outranks(messages: Seq<MessageView>, j: int, i: int) -> bool {
    let p = priority(messages[j].relations);
    let q = priority(messages[i].relations);
    p > q || (p == q && j < i)
}

/// No message is longer than the limit for one message.
pub open spec fn each_within(messages: Seq<MessageView>, limit: nat) -> bool {
    forall|i: int| 0 <= i < messages.len() ==> (#[trigger] messages[i]).content.len() <= limit
}

/// No message is there twice.
pub open spec fn no_duplicates(messages: Seq<MessageView>) -> bool {
    forall|i: int, j: int|
        0 <= i < j < messages.len() ==> !same_message(#[trigger] messages[i], #[trigger] messages[j])
}

/// A collector starts within the limits and without duplicates.
pub proof fn lemma_empty_is_bounded(limit: nat)
    ensures
        each_within(Seq::empty(), limit),
        no_duplicates(Seq::empty()),
{
}

/// Adding a message keeps every message within its limit and brings in no
/// duplicate.
pub proof fn lemma_added_is_bounded(
    messages: Seq<MessageView>,
    message: MessageView,
    relation: Seq<char>,
    limit: nat,
)
    requires
        each_within(messages, limit),
        no_duplicates(messages),
    ensures
        each_within(with_message(messages, message, relation, limit), limit),
        no_duplicates(with_message(messages, message, relation, limit)),
{
    lemma_place(messages, message, 0);
    lemma_truncated_fits(message.content, limit);
    let after = with_message(messages, message, relation, limit);
    assert forall|i: int, j: int| 0 <= i < j < after.len() implies !same_message(
        #[trigger] after[i],
        #[trigger] after[j],
    ) by {
        if j < messages.len() {
            assert(!same_message(messages[i], messages[j]));
        }
    }
}

/// What is handed out keeps to the limit for one message and holds no
/// duplicate.
pub proof fn lemma_selected_is_bounded(messages: Seq<MessageView>, budget: nat, limit: nat)
    requires
        each_within(messages, limit),
        no_duplicates(messages),
    ensures
        each_within(selected(messages, budget, messages.len() as int), limit),
        no_duplicates(selected(messages, budget, messages.len() as int)),
{
    lemma_selected_prefix_is_bounded(messages, budget, limit, messages.len() as int);
}

proof fn lemma_selected_prefix_is_bounded(
    messages: Seq<MessageView>,
    budget: nat,
    limit: nat,
    n: int,
)
    requires
        each_within(messages, limit),
        no_duplicates(messages),
        0 <= n <= messages.len(),
    ensures
        each_within(selected(messages, budget, n), limit),
        no_duplicates(selected(messages, budget, n)),
        forall|j: int|
            0 <= j < selected(messages, budget, n).len() ==> exists|i: int|
                0 <= i < n && same_message(
                    #[trigger] selected(messages, budget, n)[j],
                    #[trigger] messages[i],
                ),
    decreases n,
{
    if n > 0 {
        lemma_selected_prefix_is_bounded(messages, budget, limit, n - 1);
        let front = selected(messages, budget, n - 1);
        let all = selected(messages, budget, n);
        let s = share(messages, n - 1, budget);
        lemma_truncated_fits(messages[n - 1].content, s);
        assert forall|j: int| 0 <= j < all.len() implies exists|i: int|
            0 <= i < n && same_message(#[trigger] all[j], #[trigger] messages[i]) by {
            if j < front.len() {
                assert(all[j] == front[j]);
                let i = choose|i: int|
                    0 <= i < n - 1 && same_message(front[j], #[trigger] messages[i]);
                assert(same_message(all[j], messages[i]));
            } else {
                assert(same_message(all[j], messages[n - 1]));
            }
        }
        assert forall|a: int, b: int| 0 <= a < b < all.len() implies !same_message(
            #[trigger] all[a],
            #[trigger] all[b],
        ) by {
            assert(all[a] == front[a]);
            if b < front.len() {
                assert(all[b] == front[b]);
            } else {
                let i = choose|i: int|
                    0 <= i < n - 1 && same_message(front[a], #[trigger] messages[i]);
                assert(!same_message(messages[i], messages[n - 1]));
            }
        }
    }
}

/// Adding the same message under the same relation again changes nothing.
pub proof fn lemma_added_twice(
    messages: Seq<MessageView>,
    message: MessageView,
    relation: Seq<char>,
    limit: nat,
)
    ensures
        with_message(with_message(messages, message, relation, limit), message, relation, limit)
            == with_message(messages, message, relation, limit),
{
    let once = with_message(messages, message, relation, limit);
    lemma_place(messages, message, 0);
    lemma_place(once, message, 0);
    let k = place(messages, message, 0);
    let k2 = place(once, message, 0);
    assert(same_message(once[k], message));
    assert(k2 == k) by {
        if k2 > k {
            assert(!same_message(once[k], message));
        } else if k2 < k {
            assert(once[k2] == messages[k2]);
            assert(!same_message(messages[k2], message));
        }
    }
    if k < messages.len() {
        if !messages[k].relations.contains(relation) {
            let n = messages[k].relations.len() as int;
            assert(once[k].relations[n] == relation);
        }
    } else {
        assert(once[k].relations[0] == relation);
    }
}

/// A message that is there already keeps its text and place, and every
/// relation under which it came.
pub proof fn lemma_relations_preserved(
    messages: Seq<MessageView>,
    message: MessageView,
    relation: Seq<char>,
    limit: nat,
    i: int,
)
    requires
        0 <= i < messages.len(),
    ensures
        ({
            let after = with_message(messages, message, relation, limit);
            &&& i < after.len()
            &&& after[i].content == messages[i].content
            &&& same_message(after[i], messages[i])
            &&& forall|r: Seq<char>|
                messages[i].relations.contains(r) ==> after[i].relations.contains(r)
        }),
{
    lemma_place(messages, message, 0);
    let after = with_message(messages, message, relation, limit);
    assert forall|r: Seq<char>| messages[i].relations.contains(r) implies after[i].relations.contains(
        r,
    ) by {
        let j = choose|j: int| 0 <= j < messages[i].relations.len() && messages[i].relations[j] == r;
        assert(after[i].relations[j] == r);
    }
}

/// A context that is not marked incomplete holds every message whole.
pub proof fn lemma_complete_context(messages: Seq<MessageView>, budget: nat, n: int)
    requires
        0 <= n <= messages.len(),
        !over_budget(messages, budget),
    ensures
        selected(messages, budget, n) == messages.take(n),
    decreases n,
{
    if n > 0 {
        lemma_complete_context(messages, budget, n - 1);
        assert(!falls_short(messages, n - 1, budget));
        assert(messages.take(n) =~= messages.take(n - 1).push(messages[n - 1]));
    } else {
        assert(messages.take(0) =~= Seq::empty());
    }
}

/// What the user referred to comes first: a message never loses to one of
/// lower priority, nor to a later one of its own.
pub proof fn lemma_priority_first(messages: Seq<MessageView>, i: int, j: int, budget: nat)
    requires
        0 <= i < messages.len(),
        0 <= j < messages.len(),
        priority(messages[i].relations) > priority(messages[j].relations) || (priority(
            messages[i].relations,
        ) == priority(messages[j].relations) && i <= j),
    ensures
        share(messages, i, budget) >= share(messages, j, budget),
{
    lemma_ahead_monotone(
        messages,
        priority(messages[i].relations),
        i,
        priority(messages[j].relations),
        j,
        messages.len() as int,
    );
}

proof fn lemma_ahead_monotone(messages: Seq<MessageView>, p: u8, i: int, q: u8, j: int, n: int)
    requires
        n <= messages.len(),
        p > q || (p == q && i <= j),
    ensures
        ahead(messages, p, i, n) <= ahead(messages, q, j, n),
    decreases n,
{
    if n > 0 {
        lemma_ahead_monotone(messages, p, i, q, j, n - 1);
    }
}

// ---------------------------------------------------------------------------
// What the user gets
// ---------------------------------------------------------------------------

/// The user referred to the message: it was replied to, opens the thread, or was
/// linked.
pub open spec fn referred(m: MessageView) -> bool {
    ||| m.relations.contains("native_reply"@)
    ||| m.relations.contains("thread_root"@)
    ||| m.relations.contains("linked_target"@)
}

/// What the user referred to gets its share of the budget before everything
/// else, and what stands around it before the rest, whatever the order in which
/// they came; among messages alike, the first that came.
pub proof fn lemma_referred_comes_first(messages: Seq<MessageView>, i: int, j: int, budget: nat)
    requires
        0 <= i < messages.len(),
        0 <= j < messages.len(),
    ensures
        referred(messages[i]) && !referred(messages[j]) ==> share(messages, i, budget) >= share(
            messages,
            j,
            budget,
        ),
        !referred(messages[i]) && !referred(messages[j]) && messages[i].relations.contains(
            "linked_neighbor"@,
        ) && !messages[j].relations.contains("linked_neighbor"@) ==> share(messages, i, budget)
            >= share(messages, j, budget),
        i <= j && referred(messages[i]) && referred(messages[j]) ==> share(messages, i, budget)
            >= share(messages, j, budget),
        i <= j && messages[i].relations == messages[j].relations ==> share(messages, i, budget)
            >= share(messages, j, budget),
{
    if priority(messages[i].relations) > priority(messages[j].relations) || (priority(
        messages[i].relations,
    ) == priority(messages[j].relations) && i <= j) {
        lemma_priority_first(messages, i, j, budget);
    }
}

/// A message that the user referred to and that is the only such one has the
/// whole budget to itself: it is handed out, and whole where it fits.
pub proof fn lemma_only_referred_is_whole(messages: Seq<MessageView>, i: int, budget: nat)
    requires
        0 <= i < messages.len(),
        budget > 0,
        referred(messages[i]),
        forall|j: int| 0 <= j < messages.len() && j != i ==> !referred(#[trigger] messages[j]),
    ensures
        share(messages, i, budget) == budget,
        messages[i].content.len() <= budget ==> selected(
            messages,
            budget,
            messages.len() as int,
        ).contains(messages[i]),
{
    lemma_none_before_only_referred(messages, i, messages.len() as int);
    if messages[i].content.len() <= budget {
        lemma_whole_is_selected(messages, i, budget, messages.len() as int);
    }
}

proof fn lemma_none_before_only_referred(messages: Seq<MessageView>, i: int, n: int)
    requires
        0 <= i < messages.len(),
        n <= messages.len(),
        forall|j: int| 0 <= j < messages.len() && j != i ==> !referred(#[trigger] messages[j]),
    ensures
        ahead(messages, 3, i, n) == 0,
    decreases n,
{
    if n > 0 {
        lemma_none_before_only_referred(messages, i, n - 1);
        if n - 1 != i {
            assert(!referred(messages[n - 1]));
        }
    }
}

proof fn lemma_whole_is_selected(messages: Seq<MessageView>, i: int, budget: nat, n: int)
    requires
        0 <= i < n <= messages.len(),
        0 < share(messages, i, budget),
        messages[i].content.len() <= share(messages, i, budget),
    ensures
        selected(messages, budget, n).contains(messages[i]),
    decreases n,
{
    let all = selected(messages, budget, n);
    let front = selected(messages, budget, n - 1);
    if n - 1 == i {
        assert(all[all.len() - 1] == messages[i]);
    } else {
        lemma_whole_is_selected(messages, i, budget, n - 1);
        let k = choose|k: int| 0 <= k < front.len() && front[k] == messages[i];
        assert(all[k] == messages[i]);
    }
}

proof fn lemma_ahead_is_total(messages: Seq<MessageView>, n: int)
    requires
        0 <= n <= messages.len(),
    ensures
        ahead(messages, 0, 0, n) == total_chars(messages.take(n)),
    decreases n,
{
    if n > 0 {
        lemma_ahead_is_total(messages, n - 1);
        assert(messages.take(n).drop_last() =~= messages.take(n - 1));
    }
}

/// Where everything fits, everything is handed out as it is, and nothing is
/// marked incomplete for want of budget.
pub proof fn lemma_all_that_fits_is_kept(messages: Seq<MessageView>, budget: nat)
    requires
        total_chars(messages) < budget,
    ensures
        selected(messages, budget, messages.len() as int) == messages,
        !over_budget(messages, budget),
{
    let n = messages.len() as int;
    lemma_ahead_is_total(messages, n);
    assert(messages.take(n) =~= messages);
    assert forall|i: int| 0 <= i < n implies !falls_short(messages, i, budget) by {
        let p = priority(messages[i].relations);
        lemma_ahead_step(messages, p, i, n);
        lemma_ahead_monotone(messages, p, i + 1, 0, 0, n);
    }
    lemma_complete_context(messages, budget, n);
}

/// The mark of incompleteness tells the truth: it is set for want of budget
/// exactly where what is handed out is not everything that was collected.
pub proof fn lemma_incomplete_tells_the_truth(messages: Seq<MessageView>, budget: nat)
    ensures
        over_budget(messages, budget) <==> selected(messages, budget, messages.len() as int)
            != messages,
{
    let n = messages.len() as int;
    let all = selected(messages, budget, n);
    if !over_budget(messages, budget) {
        lemma_complete_context(messages, budget, n);
        assert(messages.take(n) =~= messages);
    } else if all == messages {
        lemma_selected_whole(messages, budget, n);
        let i = choose|i: int| 0 <= i < messages.len() && falls_short(messages, i, budget);
        assert(all[i].content == truncated(messages[i].content, share(messages, i, budget)));
        lemma_truncated_fits(messages[i].content, share(messages, i, budget));
    }
}

proof fn lemma_selected_whole(messages: Seq<MessageView>, budget: nat, n: int)
    requires
        0 <= n <= messages.len(),
    ensures
        selected(messages, budget, n).len() <= n,
        selected(messages, budget, n).len() == n ==> forall|i: int|
            0 <= i < n ==> share(messages, i, budget) > 0 && (#[trigger] selected(
                messages,
                budget,
                n,
            )[i]).content == truncated(messages[i].content, share(messages, i, budget)),
    decreases n,
{
    if n > 0 {
        lemma_selected_whole(messages, budget, n - 1);
        let front = selected(messages, budget, n - 1);
        let all = selected(messages, budget, n);
        if all.len() == n {
            assert forall|i: int| 0 <= i < n implies share(messages, i, budget) > 0 && (
            #[trigger] all[i]).content == truncated(
                messages[i].content,
                share(messages, i, budget),
            ) by {
                if i < n - 1 {
                    assert(all[i] == front[i]);
                }
            }
        }
    }
}

/// Places in order.
pub open spec fn rising(places: Seq<int>) -> bool {
    forall|a: int, b: int| 0 <= a < b < places.len() ==> places[a] < places[b]
}

/// What is handed out stands at these places among the messages: the same
/// messages in the same order, but for texts that are cut.
pub open spec fn taken_from(
    out: Seq<MessageView>,
    messages: Seq<MessageView>,
    places: Seq<int>,
) -> bool {
    &&& out.len() == places.len()
    &&& rising(places)
    &&& forall|j: int|
        0 <= j < out.len() ==> 0 <= places[j] < messages.len() && (#[trigger] out[j])
            == (MessageView {
            content: truncated(messages[places[j]].content, out[j].content.len()),
            ..messages[places[j]]
        })
}

/// Messages are handed out in the order in which they came, unchanged but for
/// the cut of their texts.
pub proof fn lemma_order_is_kept(messages: Seq<MessageView>, budget: nat) -> (places: Seq<int>)
    ensures
        taken_from(selected(messages, budget, messages.len() as int), messages, places),
{
    lemma_places(messages, budget, messages.len() as int)
}

proof fn lemma_places(messages: Seq<MessageView>, budget: nat, n: int) -> (places: Seq<int>)
    requires
        0 <= n <= messages.len(),
    ensures
        taken_from(selected(messages, budget, n), messages, places),
        forall|a: int| 0 <= a < places.len() ==> 0 <= (#[trigger] places[a]) < n,
    decreases n,
{
    if n <= 0 {
        Seq::empty()
    } else {
        let front = lemma_places(messages, budget, n - 1);
        let before = selected(messages, budget, n - 1);
        let all = selected(messages, budget, n);
        let s = share(messages, n - 1, budget);
        if s > 0 {
            let places = front.push(n - 1);
            let c = messages[n - 1].content;
            lemma_truncated_fits(c, s);
            assert(truncated(c, truncated(c, s).len()) == truncated(c, s));
            assert forall|j: int| 0 <= j < all.len() implies 0 <= places[j] < messages.len() && (
            #[trigger] all[j]) == (MessageView {
                content: truncated(messages[places[j]].content, all[j].content.len()),
                ..messages[places[j]]
            }) by {
                if j < before.len() {
                    assert(all[j] == before[j]);
                    assert(places[j] == front[j]);
                }
            }
            assert forall|a: int, b: int| 0 <= a < b < places.len() implies places[a]
                < places[b] by {
                if b < front.len() {
                    assert(front[a] < front[b]);
                } else {
                    assert(front[a] < n - 1);
                }
            }
            places
        } else {
            front
        }
    }
}

/// A cut text is as long as the limit allows and begins as the text does; it
/// ends with the mark where there is room for one.
pub proof fn lemma_cut_text_is_the_beginning(value: Seq<char>, limit: nat)
    requires
        value.len() > limit,
    ensures
        truncated(value, limit).len() == limit,
        limit <= 12 ==> truncated(value, limit) == value.take(limit as int),
        limit > 12 ==> truncated(value, limit).take(limit - 12) == value.take(limit - 12)
            && truncated(value, limit).skip(limit - 12) == "…[truncated]"@,
{
    reveal_strlit("…[truncated]");
    let cut = truncated(value, limit);
    if limit > 12 {
        assert(cut.take(limit - 12) =~= value.take(limit - 12));
        assert(cut.skip(limit - 12) =~= "…[truncated]"@);
    }
}

/// A message that is not there yet comes last, under its relation alone, cut to
/// the limit; those before it stay as they are.
pub proof fn lemma_new_message_comes_last(
    messages: Seq<MessageView>,
    message: MessageView,
    relation: Seq<char>,
    limit: nat,
)
    requires
        forall|i: int|
            0 <= i < messages.len() ==> (#[trigger] messages[i]).channel_id != message.channel_id
                || messages[i].message_id != message.message_id,
    ensures
        ({
            let after = with_message(messages, message, relation, limit);
            &&& after.len() == messages.len() + 1
            &&& after.drop_last() == messages
            &&& after.last().relations == seq![relation]
            &&& after.last().content.len() <= limit
            &&& message.content.len() <= limit ==> after.last().content == message.content
            &&& after.last() == (MessageView {
                content: after.last().content,
                relations: after.last().relations,
                ..message
            })
        }),
{
    lemma_place(messages, message, 0);
    lemma_truncated_fits(message.content, limit);
    let after = with_message(messages, message, relation, limit);
    assert(after.drop_last() =~= messages);
}

/// A message that is there already only gains the relation, at the end of those
/// that it has, if it has not got it; nothing else changes.
pub proof fn lemma_known_message_gains_a_relation(
    messages: Seq<MessageView>,
    message: MessageView,
    relation: Seq<char>,
    limit: nat,
    k: int,
)
    requires
        no_duplicates(messages),
        0 <= k < messages.len(),
        messages[k].channel_id == message.channel_id,
        messages[k].message_id == message.message_id,
    ensures
        ({
            let after = with_message(messages, message, relation, limit);
            &&& after.len() == messages.len()
            &&& after[k] == (MessageView { relations: after[k].relations, ..messages[k] })
            &&& after[k].relations == if messages[k].relations.contains(relation) {
                messages[k].relations
            } else {
                messages[k].relations.push(relation)
            }
            &&& forall|i: int| 0 <= i < messages.len() && i != k ==> after[i] == messages[i]
        }),
{
    lemma_place(messages, message, 0);
    let p = place(messages, message, 0);
    if p != k {
        if p < k {
            assert(!same_message(messages[p], messages[k]));
        } else {
            assert(!same_message(messages[k], message));
        }
    }
}

/// A limit takes the first items, as many as it says or as there are.
pub proof fn lemma_limit_takes_the_first<T>(items: Seq<T>, limit: nat)
    ensures
        limited(items, limit).len() == if items.len() <= limit {
            items.len()
        } else {
            limit
        },
        forall|i: int| 0 <= i < limited(items, limit).len() ==> limited(items, limit)[i] == items[i],
{
}

/// A match is a link to the channel and message that it names, under the guild
/// that it names first; a match that lacks a part is none.
pub proof fn lemma_discord_match_is_its_link(
    found: Seq<Seq<Option<Seq<char>>>>,
    whole: Option<Seq<char>>,
    guild: Seq<char>,
    channel: Seq<char>,
    message: Seq<char>,
)
    ensures
        ({
            let m = seq![whole, Some(guild), Some(channel), Some(message)];
            let link = DiscordLinkView {
                guild_id: guild,
                channel_id: channel,
                message_id: message,
            };
            let before = discord_links(found);
            let after = discord_links(found.push(m));
            if exists|i: int|
                0 <= i < before.len() && (#[trigger] before[i]).channel_id == channel
                    && before[i].message_id == message {
                after == before
            } else {
                after == before.push(link)
            }
        }),
        discord_links(found.push(seq![whole, None, Some(channel), Some(message)]))
            == discord_links(found),
        discord_links(found.push(seq![whole, Some(guild), None, Some(message)])) == discord_links(
            found,
        ),
        discord_links(found.push(seq![whole, Some(guild), Some(channel), None])) == discord_links(
            found,
        ),
        discord_links(Seq::empty()).len() == 0,
{
    let m = seq![whole, Some(guild), Some(channel), Some(message)];
    assert(found.push(m).drop_last() =~= found);
    assert(found.push(seq![whole, None, Some(channel), Some(message)]).drop_last() =~= found);
    assert(found.push(seq![whole, Some(guild), None, Some(message)]).drop_last() =~= found);
    assert(found.push(seq![whole, Some(guild), Some(channel), None]).drop_last() =~= found);
    let before = discord_links(found);
    let link = DiscordLinkView { guild_id: guild, channel_id: channel, message_id: message };
    if exists|i: int|
        0 <= i < before.len() && (#[trigger] before[i]).channel_id == channel
            && before[i].message_id == message {
        let i = choose|i: int|
            0 <= i < before.len() && (#[trigger] before[i]).channel_id == channel
                && before[i].message_id == message;
        assert(same_discord_target(before[i], link));
        assert(discord_seen(before, link));
    } else {
        assert(!discord_seen(before, link));
    }
}

/// The digits of a permalink are its seconds and six digits of fraction; a
/// timestamp is its seconds and a fraction that is filled up with zeros.
pub proof fn lemma_timestamps_are_read(seconds: Seq<char>, fraction: Seq<char>)
    requires
        seconds.len() >= 10,
        1 <= fraction.len() <= 6,
        all_digits(seconds),
        all_digits(fraction),
    ensures
        fraction.len() == 6 ==> permalink_timestamp(seconds + fraction) == Some(
            seconds + "."@ + fraction,
        ),
        fraction.len() == 6 ==> normal_timestamp(seconds + fraction) == Some(
            seconds + "."@ + fraction,
        ),
        ({
            let read = normal_timestamp(seconds + "."@ + fraction);
            &&& read is Some
            &&& read->0.len() == seconds.len() + 7
            &&& read->0.take(seconds.len() + 1 + fraction.len() as int) == seconds + "."@ + fraction
            &&& forall|i: int|
                seconds.len() + 1 + fraction.len() <= i < read->0.len() ==> read->0[i] == '0'
        }),
{
    reveal_strlit(".");
    let digits = seconds + fraction;
    assert(all_digits(digits)) by {
        assert forall|i: int| 0 <= i < digits.len() implies crate::text::is_ascii_digit(
            #[trigger] digits[i],
        ) by {
            if i < seconds.len() {
                assert(crate::text::is_ascii_digit(seconds[i]));
            } else {
                assert(crate::text::is_ascii_digit(fraction[i - seconds.len()]));
            }
        }
    }
    if fraction.len() == 6 {
        assert(digits.take(digits.len() - 6) =~= seconds);
        assert(digits.skip(digits.len() - 6) =~= fraction);
    }
    assert forall|j: int| 0 <= j < digits.len() implies digits[j] != '.' by {
        assert(crate::text::is_ascii_digit(digits[j]));
    }
    crate::text::lemma_position_is(digits, '.', digits.len() as int);
    let raw = seconds + "."@ + fraction;
    assert forall|j: int| 0 <= j < seconds.len() implies raw[j] != '.' by {
        assert(raw[j] == seconds[j]);
        assert(crate::text::is_ascii_digit(seconds[j]));
    }
    crate::text::lemma_position_is(raw, '.', seconds.len() as int);
    assert(raw.take(seconds.len() as int) =~= seconds);
    assert(raw.skip(seconds.len() + 1int) =~= fraction);
    let read = normal_timestamp(raw)->0;
    assert(read.take((seconds.len() + 1 + fraction.len()) as int) =~= raw);
}

/// Digits alone make a timestamp: whatever else stands in it, it is refused.
pub proof fn lemma_other_timestamps_are_refused(raw: Seq<char>, i: int)
    requires
        0 <= i < raw.len(),
        !('0' <= raw[i] <= '9'),
    ensures
        permalink_timestamp(raw) is None,
        raw[i] != '.' ==> normal_timestamp(raw) is None,
{
    assert(!crate::text::is_ascii_digit(raw[i]));
    crate::text::lemma_position(raw, '.');
    let dot = crate::text::position(raw, '.');
    if raw[i] != '.' && dot < raw.len() {
        if i < dot {
            assert(raw.take(dot)[i] == raw[i]);
        } else {
            assert(raw.skip(dot + 1)[i - dot - 1] == raw[i]);
        }
    }
}

/// A Slack match is a link to the message that its digits name, in the workspace
/// in lower case; the thread is the one that its address names. A thread that
/// cannot be read makes it none.
pub proof fn lemma_slack_match_is_its_link(
    whole: Seq<char>,
    workspace: Seq<char>,
    channel: Seq<char>,
    seconds: Seq<char>,
    fraction: Seq<char>,
    thread: Seq<char>,
)
    requires
        seconds.len() >= 10,
        fraction.len() == 6,
        all_digits(seconds),
        all_digits(fraction),
    ensures
        ({
            let m = seq![Some(whole), Some(workspace), Some(channel), Some(seconds + fraction)];
            let link = slack_link(m, None);
            let named = slack_link(m, Some(seq![None, Some(thread)]));
            &&& link is Some
            &&& link->0.workspace.len() == workspace.len()
            &&& forall|i: int|
                0 <= i < workspace.len() ==> link->0.workspace[i] == crate::text::ascii_lower(
                    workspace[i],
                )
            &&& link->0.channel_id == channel
            &&& link->0.message_ts == seconds + "."@ + fraction
            &&& link->0.thread_ts is None
            &&& normal_timestamp(thread) is None ==> named is None
            &&& normal_timestamp(thread) is Some ==> named == Some(
                SlackLinkView { thread_ts: normal_timestamp(thread), ..link->0 },
            )
        }),
{
    lemma_timestamps_are_read(seconds, fraction);
}

/// A link joins those before it exactly if none of them leads to its message in
/// its workspace; what is no link changes nothing.
pub proof fn lemma_slack_link_joins_once(links: Seq<Option<SlackLinkView>>, link: SlackLinkView)
    ensures
        ({
            let before = unique_slack_links(links);
            let after = unique_slack_links(links.push(Some(link)));
            if exists|i: int|
                0 <= i < before.len() && (#[trigger] before[i]).workspace == link.workspace
                    && before[i].channel_id == link.channel_id && before[i].message_ts
                    == link.message_ts {
                after == before
            } else {
                after == before.push(link)
            }
        }),
        unique_slack_links(links.push(None)) == unique_slack_links(links),
        unique_slack_links(Seq::empty()).len() == 0,
{
    let before = unique_slack_links(links);
    assert(links.push(Some(link)).drop_last() =~= links);
    assert(links.push(None).drop_last() =~= links);
    if exists|i: int|
        0 <= i < before.len() && (#[trigger] before[i]).workspace == link.workspace
            && before[i].channel_id == link.channel_id && before[i].message_ts
            == link.message_ts {
        let i = choose|i: int|
            0 <= i < before.len() && (#[trigger] before[i]).workspace == link.workspace
                && before[i].channel_id == link.channel_id && before[i].message_ts
                == link.message_ts;
        assert(same_slack_target(before[i], link));
        assert(slack_seen(before, link));
    } else {
        assert(!slack_seen(before, link));
    }
}

/// A message is cut when it is added: it is new, and longer than the limit.
pub open spec fn cut_on_arrival(
    messages: Seq<MessageView>,
    message: MessageView,
    limit: nat,
) -> bool {
    place(messages, message, 0) == messages.len() && message.content.len() > limit
}

/// Adding is marked incomplete exactly where a new message loses some of its
/// text.
pub proof fn lemma_cut_on_arrival_is_marked(
    messages: Seq<MessageView>,
    message: MessageView,
    relation: Seq<char>,
    limit: nat,
)
    ensures
        cut_on_arrival(messages, message, limit) <==> {
            let after = with_message(messages, message, relation, limit);
            after.len() > messages.len() && after.last().content != message.content
        },
{
    lemma_place(messages, message, 0);
    lemma_truncated_fits(message.content, limit);
}

/// What is handed out of what was collected.
pub open spec fn context_of(
    messages: Seq<MessageView>,
    budget: nat,
    incomplete: bool,
    failures: Seq<FailureView>,
) -> ContextView {
    ContextView {
        schema: CONTEXT_SCHEMA@,
        messages: selected(messages, budget, messages.len() as int),
        incomplete: incomplete || over_budget(messages, budget),
        failures,
    }
}

/// What is handed out is marked incomplete exactly if something was missing
/// before or is missing now; failures are handed out whole.
pub proof fn lemma_context_is_honest(
    messages: Seq<MessageView>,
    budget: nat,
    incomplete: bool,
    failures: Seq<FailureView>,
)
    ensures
        ({
            let context = context_of(messages, budget, incomplete, failures);
            &&& context.schema == "openab.recovered-context.v1"@
            &&& context.failures == failures
            &&& context.incomplete <==> incomplete || context.messages != messages
            &&& total_chars(context.messages) <= budget
            &&& total_chars(messages) < budget ==> context.messages == messages
        }),
{
    lemma_incomplete_tells_the_truth(messages, budget);
    lemma_total_within_budget(messages, budget);
    if total_chars(messages) < budget {
        lemma_all_that_fits_is_kept(messages, budget);
    }
}

/// The thread of a link is looked for in the address that was matched.
pub proof fn lemma_thread_is_read_off_the_address(groups: Seq<Option<Seq<char>>>)
    requires
        groups.len() > 0,
    ensures
        groups[0] is None ==> slack_link_in(groups) is None,
        groups[0] is Some ==> slack_link_in(groups) == slack_link(
            groups,
            crate::patterns::first_captures_of(
                "(?:\\?|&)thread_ts=(\\d{10,}\\.?\\d*)"@,
                groups[0]->0,
            ),
        ),
{
}

} // verus!
