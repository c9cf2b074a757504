//! The emoji that shows on a message how its turn fares, and the message that
//! shows in a channel that turns are running.

use vstd::prelude::*;

use crate::adapter::{ChannelRef, MessageRef};
use crate::config::{ActivityHeartbeatConfig, ReactionEmojis, ReactionTiming};
use crate::text::{chars_of, holds, same_str, to_lowercase};
use crate::time::Duration;

verus! {

broadcast use vstd::seq_lib::group_seq_properties;

// ---------------------------------------------------------------------------
// Tools
// ---------------------------------------------------------------------------

/// The name of a tool that reaches the web.
pub open spec fn names_web(n: Seq<char>) -> bool {
    ||| crate::text::occurs(n, "web_search"@)
    ||| crate::text::occurs(n, "web_fetch"@)
    ||| crate::text::occurs(n, "web-search"@)
    ||| crate::text::occurs(n, "web-fetch"@)
    ||| crate::text::occurs(n, "browser"@)
}

/// The name of a tool that works on files and processes.
pub open spec fn names_coding(n: Seq<char>) -> bool {
    ||| crate::text::occurs(n, "exec"@)
    ||| crate::text::occurs(n, "process"@)
    ||| crate::text::occurs(n, "read"@)
    ||| crate::text::occurs(n, "write"@)
    ||| crate::text::occurs(n, "edit"@)
    ||| crate::text::occurs(n, "bash"@)
    ||| crate::text::occurs(n, "shell"@)
}

/// The emoji for a tool by its name in lower case. The web comes first.
pub open spec fn tool_emoji(n: Seq<char>, emojis: crate::config::EmojisView) -> Seq<char> {
    if names_web(n) {
        emojis.web
    } else if names_coding(n) {
        emojis.coding
    } else {
        emojis.tool
    }
}

/// The emoji for a tool by its name in lower case.
pub fn classify_lowered<'a>(name: &str, emojis: &'a ReactionEmojis) -> (r: &'a str)
    ensures
        r@ == tool_emoji(name@, emojis@),
{
    let cs = chars_of(name);
    let n = cs.as_slice();
    if holds(n, "web_search") || holds(n, "web_fetch") || holds(n, "web-search") || holds(
        n,
        "web-fetch",
    ) || holds(n, "browser") {
        emojis.web.as_str()
    } else if holds(n, "exec") || holds(n, "process") || holds(n, "read") || holds(n, "write")
        || holds(n, "edit") || holds(n, "bash") || holds(n, "shell") {
        emojis.coding.as_str()
    } else {
        emojis.tool.as_str()
    }
}

/// The emoji for a tool by its name.
pub fn classify_tool<'a>(name: &str, emojis: &'a ReactionEmojis) -> (r: &'a str)
    ensures
        r@ == tool_emoji(crate::text::lowercase(name@), emojis@),
{
    classify_lowered(to_lowercase(name).as_str(), emojis)
}

// ---------------------------------------------------------------------------
// Moods
// ---------------------------------------------------------------------------

/// The faces of which one joins the emoji of a turn that is done.
pub open spec fn face(n: nat) -> Seq<char> {
    let k = n % 8;
    if k == 0 {
        "😊"@
    } else if k == 1 {
        "😎"@
    } else if k == 2 {
        "🫡"@
    } else if k == 3 {
        "🤓"@
    } else if k == 4 {
        "😏"@
    } else if k == 5 {
        "✌️"@
    } else if k == 6 {
        "💪"@
    } else {
        "🦾"@
    }
}

/// The face that a number picks.
pub fn mood_face(n: usize) -> (r: &'static str)
    ensures
        r@ == face(n as nat),
{
    match n % 8 {
        0 => "😊",
        1 => "😎",
        2 => "🫡",
        3 => "🤓",
        4 => "😏",
        5 => "✌️",
        6 => "💪",
        _ => "🦾",
    }
}

/// `rand::random` draws a number. Any can come, so nothing is claimed of it.
#[verifier::external_body]
fn random_number() -> usize {
    rand::random::<usize>()
}

// ---------------------------------------------------------------------------
// Steps
// ---------------------------------------------------------------------------

/// What is to be done, in order.
#[derive(Debug)]
pub enum ReactionStep {
    Add { message: MessageRef, emoji: String },
    Remove { message: MessageRef, emoji: String },
    /// Stop the timer that would set an emoji.
    CancelDebounce,
    /// Set this emoji after a while, unless the timer is stopped.
    StartDebounce { ms: u64, emoji: String },
    /// Stop the timers that tell of a stall.
    CancelStall,
    /// Tell of a stall after a while, and again after a longer while, unless
    /// the timers are stopped.
    StartStall { soft_ms: u64, hard_ms: u64 },
}

pub enum ReactionView {
    Add { message: crate::adapter::RefView, emoji: Seq<char> },
    Remove { message: crate::adapter::RefView, emoji: Seq<char> },
    CancelDebounce,
    StartDebounce { ms: u64, emoji: Seq<char> },
    CancelStall,
    StartStall { soft_ms: u64, hard_ms: u64 },
}

impl View for ReactionStep {
    type V = ReactionView;

    open spec fn view(&self) -> ReactionView {
        match self {
            ReactionStep::Add { message, emoji } => ReactionView::Add {
                message: message@,
                emoji: emoji@,
            },
            ReactionStep::Remove { message, emoji } => ReactionView::Remove {
                message: message@,
                emoji: emoji@,
            },
            ReactionStep::CancelDebounce => ReactionView::CancelDebounce,
            ReactionStep::StartDebounce { ms, emoji } => ReactionView::StartDebounce {
                ms: *ms,
                emoji: emoji@,
            },
            ReactionStep::CancelStall => ReactionView::CancelStall,
            ReactionStep::StartStall { soft_ms, hard_ms } => ReactionView::StartStall {
                soft_ms: *soft_ms,
                hard_ms: *hard_ms,
            },
        }
    }
}

pub open spec fn reaction_views(steps: Seq<ReactionStep>) -> Seq<ReactionView> {
    steps.map_values(|s: ReactionStep| s@)
}

// ---------------------------------------------------------------------------
// The model
// ---------------------------------------------------------------------------

/// Shown when a turn has not moved for a while.
pub const STALL_SOFT: &'static str = "🥱";

/// Shown when a turn has not moved for long.
pub const STALL_HARD: &'static str = "😨";

/// What is known of the reactions to a message.
#[verifier::ext_equal]
pub struct ControllerView {
    pub enabled: bool,
    pub message: crate::adapter::RefView,
    pub emojis: crate::config::EmojisView,
    pub timing: ReactionTiming,
    /// The emoji that shows; empty for none.
    pub current: Seq<char>,
    pub finished: bool,
}

/// A controller and what is to be done.
pub type Transition = (ControllerView, Seq<ReactionView>);

pub open spec fn unchanged(c: ControllerView) -> Transition {
    (c, Seq::empty())
}

/// The emoji takes the place of the one that shows.
pub open spec fn switched(c: ControllerView, emoji: Seq<char>) -> Transition {
    (
        ControllerView { current: emoji, ..c },
        seq![ReactionView::Add { message: c.message, emoji }] + if c.current.len() > 0
            && c.current != emoji {
            seq![ReactionView::Remove { message: c.message, emoji: c.current }]
        } else {
            Seq::empty()
        },
    )
}

/// The stall timers start anew.
pub open spec fn stall_restart(timing: ReactionTiming) -> Seq<ReactionView> {
    seq![
        ReactionView::CancelStall,
        ReactionView::StartStall { soft_ms: timing.stall_soft_ms, hard_ms: timing.stall_hard_ms },
    ]
}

/// All timers stop.
pub open spec fn timers_stopped() -> Seq<ReactionView> {
    seq![ReactionView::CancelDebounce, ReactionView::CancelStall]
}

/// An emoji is set at once.
pub open spec fn applied(c: ControllerView, emoji: Seq<char>) -> Transition {
    if !c.enabled || c.finished || emoji == c.current {
        unchanged(c)
    } else {
        let s = switched(c, emoji);
        (s.0, seq![ReactionView::CancelDebounce] + s.1 + stall_restart(c.timing))
    }
}

/// An emoji is set after a while. The turn moves, so it is not stalled.
pub open spec fn scheduled(c: ControllerView, emoji: Seq<char>) -> Transition {
    if !c.enabled {
        unchanged(c)
    } else if c.finished || emoji == c.current {
        (c, stall_restart(c.timing))
    } else {
        (
            c,
            seq![
                ReactionView::CancelDebounce,
                ReactionView::StartDebounce { ms: c.timing.debounce_ms, emoji },
            ] + stall_restart(c.timing),
        )
    }
}

/// A timer sets its emoji, unless the turn is finished.
pub open spec fn timed(c: ControllerView, emoji: Seq<char>) -> Transition {
    if c.finished {
        unchanged(c)
    } else {
        switched(c, emoji)
    }
}

/// The turn is finished, once.
pub open spec fn concluded(c: ControllerView, emoji: Seq<char>) -> Transition {
    if !c.enabled || c.finished {
        unchanged(c)
    } else {
        let s = switched(ControllerView { finished: true, ..c }, emoji);
        (s.0, timers_stopped() + s.1)
    }
}

/// The turn is done, and a face says so.
pub open spec fn done(c: ControllerView, n: nat) -> Transition {
    if !c.enabled {
        unchanged(c)
    } else {
        let s = concluded(c, c.emojis.done);
        (s.0, s.1.push(ReactionView::Add { message: c.message, emoji: face(n) }))
    }
}

/// The emoji goes.
pub open spec fn cleared(c: ControllerView) -> Transition {
    if !c.enabled {
        unchanged(c)
    } else if c.current.len() == 0 {
        (c, timers_stopped())
    } else {
        (
            ControllerView { current: Seq::empty(), ..c },
            timers_stopped().push(
                ReactionView::Remove { message: c.message, emoji: c.current },
            ),
        )
    }
}

/// One message, whichever event its channel came with.
pub open spec fn same_target(a: crate::adapter::RefView, b: crate::adapter::RefView) -> bool {
    crate::adapter::same_channel(a.channel, b.channel) && a.message_id == b.message_id
}

/// The emoji goes over to another message, as long as the turn is not finished.
pub open spec fn moved(c: ControllerView, message: crate::adapter::RefView) -> Transition {
    let m = ControllerView { message, ..c };
    if !c.enabled {
        unchanged(c)
    } else if c.finished || same_target(c.message, message) || c.current.len() == 0 {
        unchanged(m)
    } else {
        (
            m,
            seq![
                ReactionView::Add { message, emoji: c.current },
                ReactionView::Remove { message: c.message, emoji: c.current },
            ],
        )
    }
}

/// The queued emoji was set by someone else.
pub open spec fn adopted(c: ControllerView) -> ControllerView {
    if c.enabled && c.current.len() == 0 {
        ControllerView { current: c.emojis.queued, ..c }
    } else {
        c
    }
}

// ---------------------------------------------------------------------------
// The controller
// ---------------------------------------------------------------------------

/// Decides which emoji shows on a message while its turn runs.
#[derive(Debug)]
pub struct StatusReactionController {
    enabled: bool,
    message: MessageRef,
    emojis: ReactionEmojis,
    timing: ReactionTiming,
    current: String,
    finished: bool,
}

impl View for StatusReactionController {
    type V = ControllerView;

    closed spec fn view(&self) -> ControllerView {
        ControllerView {
            enabled: self.enabled,
            message: self.message@,
            emojis: self.emojis@,
            timing: self.timing,
            current: self.current@,
            finished: self.finished,
        }
    }
}

fn push_step(steps: &mut Vec<ReactionStep>, step: ReactionStep)
    ensures
        reaction_views(final(steps)@) == reaction_views(old(steps)@).push(step@),
{
    let ghost before = steps@;
    let ghost view = step@;
    steps.push(step);
    assert(reaction_views(steps@) =~= reaction_views(before).push(view));
}

fn no_steps() -> (r: Vec<ReactionStep>)
    ensures
        reaction_views(r@) == Seq::<ReactionView>::empty(),
{
    let r: Vec<ReactionStep> = Vec::new();
    assert(reaction_views(r@) =~= Seq::<ReactionView>::empty());
    r
}

impl StatusReactionController {
    pub fn new(
        enabled: bool,
        message: MessageRef,
        emojis: ReactionEmojis,
        timing: ReactionTiming,
    ) -> (r: Self)
        ensures
            r@ == (ControllerView {
                enabled,
                message: message@,
                emojis: emojis@,
                timing,
                current: Seq::empty(),
                finished: false,
            }),
    {
        let r = StatusReactionController {
            enabled,
            message,
            emojis,
            timing,
            current: String::new(),
            finished: false,
        };
        assert(r@.current =~= Seq::empty());
        r
    }

    fn switch(&mut self, emoji: &str, steps: &mut Vec<ReactionStep>)
        ensures
            final(self)@ == switched(old(self)@, emoji@).0,
            reaction_views(final(steps)@) == reaction_views(old(steps)@) + switched(
                old(self)@,
                emoji@,
            ).1,
    {
        let ghost before = reaction_views(steps@);
        let ghost c = self@;
        push_step(
            steps,
            ReactionStep::Add { message: self.message.clone(), emoji: emoji.to_owned() },
        );
        if !self.current.as_str().is_empty() && !same_str(self.current.as_str(), emoji) {
            push_step(
                steps,
                ReactionStep::Remove {
                    message: self.message.clone(),
                    emoji: self.current.clone(),
                },
            );
        }
        self.current = emoji.to_owned();
        assert(reaction_views(steps@) =~= before + switched(c, emoji@).1);
        assert(self@ =~= switched(c, emoji@).0);
    }

    fn restart_stall(&self, steps: &mut Vec<ReactionStep>)
        ensures
            reaction_views(final(steps)@) == reaction_views(old(steps)@) + stall_restart(
                self@.timing,
            ),
    {
        let ghost before = reaction_views(steps@);
        push_step(steps, ReactionStep::CancelStall);
        push_step(
            steps,
            ReactionStep::StartStall {
                soft_ms: self.timing.stall_soft_ms,
                hard_ms: self.timing.stall_hard_ms,
            },
        );
        assert(reaction_views(steps@) =~= before + stall_restart(self@.timing));
    }

    fn apply_immediate(&mut self, emoji: &str) -> (r: Vec<ReactionStep>)
        ensures
            (final(self)@, reaction_views(r@)) == applied(old(self)@, emoji@),
    {
        let ghost c = self@;
        let mut steps = no_steps();
        if !self.enabled || self.finished || same_str(emoji, self.current.as_str()) {
            return steps;
        }
        push_step(&mut steps, ReactionStep::CancelDebounce);
        self.switch(emoji, &mut steps);
        self.restart_stall(&mut steps);
        assert(reaction_views(steps@) =~= applied(c, emoji@).1);
        steps
    }

    fn schedule_debounced(&mut self, emoji: &str) -> (r: Vec<ReactionStep>)
        ensures
            (final(self)@, reaction_views(r@)) == scheduled(old(self)@, emoji@),
    {
        let ghost c = self@;
        let mut steps = no_steps();
        if !self.enabled {
            return steps;
        }
        if !(self.finished || same_str(emoji, self.current.as_str())) {
            push_step(&mut steps, ReactionStep::CancelDebounce);
            push_step(
                &mut steps,
                ReactionStep::StartDebounce {
                    ms: self.timing.debounce_ms,
                    emoji: emoji.to_owned(),
                },
            );
        }
        self.restart_stall(&mut steps);
        assert(reaction_views(steps@) =~= scheduled(c, emoji@).1);
        steps
    }

    fn finish(&mut self, emoji: &str) -> (r: Vec<ReactionStep>)
        ensures
            (final(self)@, reaction_views(r@)) == concluded(old(self)@, emoji@),
    {
        let ghost c = self@;
        let mut steps = no_steps();
        if !self.enabled || self.finished {
            return steps;
        }
        self.finished = true;
        push_step(&mut steps, ReactionStep::CancelDebounce);
        push_step(&mut steps, ReactionStep::CancelStall);
        self.switch(emoji, &mut steps);
        assert(reaction_views(steps@) =~= concluded(c, emoji@).1);
        steps
    }

    /// The message waits for its turn.
    pub fn set_queued(&mut self) -> (r: Vec<ReactionStep>)
        ensures
            (final(self)@, reaction_views(r@)) == applied(old(self)@, old(self)@.emojis.queued),
    {
        let emoji = self.emojis.queued.clone();
        self.apply_immediate(emoji.as_str())
    }

    /// The queued emoji was set by the caller.
    pub fn track_existing_queued(&mut self)
        ensures
            final(self)@ == adopted(old(self)@),
    {
        if self.enabled && self.current.as_str().is_empty() {
            self.current = self.emojis.queued.clone();
        }
    }

    /// The agent thinks.
    pub fn set_thinking(&mut self) -> (r: Vec<ReactionStep>)
        ensures
            (final(self)@, reaction_views(r@)) == scheduled(
                old(self)@,
                old(self)@.emojis.thinking,
            ),
    {
        let emoji = self.emojis.thinking.clone();
        self.schedule_debounced(emoji.as_str())
    }

    /// The agent uses a tool.
    pub fn set_tool(&mut self, tool_name: &str) -> (r: Vec<ReactionStep>)
        ensures
            (final(self)@, reaction_views(r@)) == scheduled(
                old(self)@,
                tool_emoji(crate::text::lowercase(tool_name@), old(self)@.emojis),
            ),
    {
        let emoji = classify_tool(tool_name, &self.emojis).to_owned();
        self.schedule_debounced(emoji.as_str())
    }

    /// The turn is done; a face that chance picks says so.
    pub fn set_done(&mut self) -> (r: Vec<ReactionStep>)
        ensures
            exists|n: nat| (final(self)@, reaction_views(r@)) == #[trigger] done(old(self)@, n),
    {
        let n: usize = random_number();
        let r = self.set_done_with(n);
        assert((self@, reaction_views(r@)) == done(old(self)@, n as nat));
        r
    }

    /// The turn is done; the face that the number picks says so.
    pub fn set_done_with(&mut self, n: usize) -> (r: Vec<ReactionStep>)
        ensures
            (final(self)@, reaction_views(r@)) == done(old(self)@, n as nat),
    {
        if !self.enabled {
            return no_steps();
        }
        let emoji = self.emojis.done.clone();
        let mut steps = self.finish(emoji.as_str());
        push_step(
            &mut steps,
            ReactionStep::Add { message: self.message.clone(), emoji: mood_face(n).to_owned() },
        );
        steps
    }

    /// The turn failed.
    pub fn set_error(&mut self) -> (r: Vec<ReactionStep>)
        ensures
            (final(self)@, reaction_views(r@)) == concluded(old(self)@, old(self)@.emojis.error),
    {
        let emoji = self.emojis.error.clone();
        self.finish(emoji.as_str())
    }

    /// The emoji goes.
    pub fn clear(&mut self) -> (r: Vec<ReactionStep>)
        ensures
            (final(self)@, reaction_views(r@)) == cleared(old(self)@),
    {
        let ghost c = self@;
        let mut steps = no_steps();
        if !self.enabled {
            return steps;
        }
        push_step(&mut steps, ReactionStep::CancelDebounce);
        push_step(&mut steps, ReactionStep::CancelStall);
        if !self.current.as_str().is_empty() {
            push_step(
                &mut steps,
                ReactionStep::Remove {
                    message: self.message.clone(),
                    emoji: self.current.clone(),
                },
            );
            self.current = String::new();
            assert(self@.current =~= Seq::empty());
        }
        assert(reaction_views(steps@) =~= cleared(c).1);
        steps
    }

    /// The emoji goes over to another message.
    pub fn move_to_message(&mut self, message: MessageRef) -> (r: Vec<ReactionStep>)
        ensures
            (final(self)@, reaction_views(r@)) == moved(old(self)@, message@),
    {
        let ghost c = self@;
        let mut steps = no_steps();
        if !self.enabled {
            return steps;
        }
        let stays = self.finished || (self.message.channel == message.channel
            && self.message.message_id == message.message_id) || self.current.as_str().is_empty();
        if !stays {
            push_step(
                &mut steps,
                ReactionStep::Add { message: message.clone(), emoji: self.current.clone() },
            );
            push_step(
                &mut steps,
                ReactionStep::Remove {
                    message: self.message.clone(),
                    emoji: self.current.clone(),
                },
            );
            assert(reaction_views(steps@) =~= moved(c, message@).1);
        }
        self.message = message;
        steps
    }

    /// The timer for an emoji ran out.
    pub fn on_debounced(&mut self, emoji: &str) -> (r: Vec<ReactionStep>)
        ensures
            (final(self)@, reaction_views(r@)) == timed(old(self)@, emoji@),
    {
        let ghost c = self@;
        let mut steps = no_steps();
        if !self.finished {
            self.switch(emoji, &mut steps);
            assert(reaction_views(steps@) =~= switched(c, emoji@).1);
        }
        steps
    }

    /// The turn has not moved for a while.
    pub fn on_stall_soft(&mut self) -> (r: Vec<ReactionStep>)
        ensures
            (final(self)@, reaction_views(r@)) == timed(old(self)@, STALL_SOFT@),
    {
        self.on_debounced(STALL_SOFT)
    }

    /// The turn has not moved for long.
    pub fn on_stall_hard(&mut self) -> (r: Vec<ReactionStep>)
        ensures
            (final(self)@, reaction_views(r@)) == timed(old(self)@, STALL_HARD@),
    {
        self.on_debounced(STALL_HARD)
    }
}

// ---------------------------------------------------------------------------
// What shows on messages
// ---------------------------------------------------------------------------

/// A reaction on a message.
pub type Reaction = (crate::adapter::RefView, Seq<char>);

/// The message, whichever event its channel came with.
pub open spec fn spot(m: crate::adapter::RefView) -> crate::adapter::RefView {
    crate::adapter::RefView {
        channel: crate::adapter::ChannelView { origin_event_id: None, ..m.channel },
        ..m
    }
}

/// The reactions after a step was done.
pub open spec fn step_done(shown: Set<Reaction>, step: ReactionView) -> Set<Reaction> {
    match step {
        ReactionView::Add { message, emoji } => shown.insert((spot(message), emoji)),
        ReactionView::Remove { message, emoji } => shown.remove((spot(message), emoji)),
        _ => shown,
    }
}

/// The reactions after the steps were done, in order.
pub open spec fn steps_done(shown: Set<Reaction>, steps: Seq<ReactionView>) -> Set<Reaction>
    decreases steps.len(),
{
    if steps.len() == 0 {
        shown
    } else {
        step_done(steps_done(shown, steps.drop_last()), steps.last())
    }
}

/// What a controller takes to show: its emoji on its message, nothing else.
pub open spec fn shows(c: ControllerView) -> Set<Reaction> {
    if c.current.len() == 0 {
        Set::empty()
    } else {
        Set::empty().insert((spot(c.message), c.current))
    }
}

/// The steps of a transition bring about what the controller takes to show.
pub open spec fn kept_in_step(c: ControllerView, t: Transition) -> bool {
    steps_done(shows(c), t.1) =~= shows(t.0)
}

proof fn lemma_steps_in_turn(shown: Set<Reaction>, a: Seq<ReactionView>, b: Seq<ReactionView>)
    ensures
        steps_done(shown, a + b) == steps_done(steps_done(shown, a), b),
    decreases b.len(),
{
    if b.len() == 0 {
        assert(a + b =~= a);
    } else {
        assert((a + b).drop_last() =~= a + b.drop_last());
        lemma_steps_in_turn(shown, a, b.drop_last());
    }
}

proof fn lemma_one_step(shown: Set<Reaction>, step: ReactionView)
    ensures
        steps_done(shown, seq![step]) == step_done(shown, step),
{
    assert(seq![step].drop_last() =~= Seq::empty());
    assert(steps_done(shown, seq![step].drop_last()) == shown);
}

proof fn lemma_two_steps(shown: Set<Reaction>, a: ReactionView, b: ReactionView)
    ensures
        steps_done(shown, seq![a, b]) == step_done(step_done(shown, a), b),
{
    assert(seq![a, b].drop_last() =~= seq![a]);
    lemma_one_step(shown, a);
}

proof fn lemma_switch_in_step(c: ControllerView, emoji: Seq<char>)
    requires
        emoji.len() > 0,
    ensures
        kept_in_step(c, switched(c, emoji)),
{
    let add = ReactionView::Add { message: c.message, emoji };
    let remove = ReactionView::Remove { message: c.message, emoji: c.current };
    if c.current.len() > 0 && c.current != emoji {
        assert(switched(c, emoji).1 =~= seq![add, remove]);
        lemma_two_steps(shows(c), add, remove);
    } else {
        assert(switched(c, emoji).1 =~= seq![add]);
        lemma_one_step(shows(c), add);
    }
}

proof fn lemma_timers_show_nothing(shown: Set<Reaction>, steps: Seq<ReactionView>)
    requires
        forall|i: int|
            0 <= i < steps.len() ==> !((#[trigger] steps[i]) is Add) && !(steps[i] is Remove),
    ensures
        steps_done(shown, steps) == shown,
    decreases steps.len(),
{
    if steps.len() > 0 {
        assert(!(steps[steps.len() - 1] is Add) && !(steps[steps.len() - 1] is Remove));
        assert forall|i: int| 0 <= i < steps.drop_last().len() implies !((
        #[trigger] steps.drop_last()[i]) is Add) && !(steps.drop_last()[i] is Remove) by {
            assert(steps[i] == steps.drop_last()[i]);
        }
        lemma_timers_show_nothing(shown, steps.drop_last());
    }
}

/// Whatever happens, one emoji shows at most, and it is the one that the
/// controller takes to show: setting an emoji, at once, after a while or when
/// the turn ends, puts it in the place of the one before.
pub proof fn lemma_one_emoji_shows(c: ControllerView, emoji: Seq<char>)
    requires
        emoji.len() > 0,
    ensures
        kept_in_step(c, applied(c, emoji)),
        kept_in_step(c, scheduled(c, emoji)),
        kept_in_step(c, timed(c, emoji)),
        kept_in_step(c, concluded(c, emoji)),
        kept_in_step(c, cleared(c)),
{
    let shown = shows(c);
    lemma_timers_show_nothing(shown, Seq::empty());
    lemma_switch_in_step(c, emoji);
    let s = switched(c, emoji);
    let debounce = seq![ReactionView::CancelDebounce];
    lemma_timers_show_nothing(shown, debounce);
    lemma_steps_in_turn(shown, debounce, s.1);
    lemma_steps_in_turn(shown, debounce + s.1, stall_restart(c.timing));
    lemma_timers_show_nothing(steps_done(shown, debounce + s.1), stall_restart(c.timing));
    lemma_timers_show_nothing(shown, scheduled(c, emoji).1);
    let f = ControllerView { finished: true, ..c };
    lemma_switch_in_step(f, emoji);
    lemma_timers_show_nothing(shown, timers_stopped());
    lemma_steps_in_turn(shown, timers_stopped(), switched(f, emoji).1);
    let remove = ReactionView::Remove { message: c.message, emoji: c.current };
    assert(timers_stopped().push(remove) =~= timers_stopped() + seq![remove]);
    lemma_steps_in_turn(shown, timers_stopped(), seq![remove]);
    lemma_one_step(shown, remove);
}

/// A done turn shows its emoji and a face, nothing else.
pub proof fn lemma_done_adds_a_face(c: ControllerView, n: nat)
    requires
        c.enabled,
        c.emojis.done.len() > 0,
    ensures
        steps_done(shows(c), done(c, n).1) =~= shows(done(c, n).0).insert(
            (spot(c.message), face(n)),
        ),
{
    lemma_one_emoji_shows(c, c.emojis.done);
    let s = concluded(c, c.emojis.done);
    assert(done(c, n).1.drop_last() =~= s.1);
}

/// The emoji moves with the message: it shows on the new one and no longer on
/// the old.
pub proof fn lemma_move_takes_the_emoji(c: ControllerView, message: crate::adapter::RefView)
    requires
        !c.finished,
    ensures
        kept_in_step(c, moved(c, message)),
{
    let shown = shows(c);
    lemma_timers_show_nothing(shown, Seq::empty());
    let add = ReactionView::Add { message, emoji: c.current };
    let remove = ReactionView::Remove { message: c.message, emoji: c.current };
    lemma_two_steps(shown, add, remove);
    if same_target(c.message, message) {
        assert(spot(c.message) == spot(message));
    } else {
        assert(spot(c.message) != spot(message)) by {
            if spot(c.message) == spot(message) {
                assert(c.message.channel.platform == spot(c.message).channel.platform);
                assert(message.channel.platform == spot(message).channel.platform);
            }
        }
    }
}

/// A turn is finished once: after that no emoji takes the place of the last,
/// whatever is set and whichever timer runs out.
pub proof fn lemma_finished_is_final(
    c: ControllerView,
    emoji: Seq<char>,
    message: crate::adapter::RefView,
)
    requires
        c.finished,
    ensures
        applied(c, emoji) == unchanged(c),
        scheduled(c, emoji).0 == c,
        timed(c, emoji) == unchanged(c),
        concluded(c, emoji) == unchanged(c),
        cleared(c).0.finished,
        moved(c, message).0.finished && moved(c, message).0.current == c.current,
        moved(c, message).1 == Seq::<ReactionView>::empty(),
{
}

/// A controller that is not enabled does nothing.
pub proof fn lemma_disabled_does_nothing(
    c: ControllerView,
    emoji: Seq<char>,
    message: crate::adapter::RefView,
    n: nat,
)
    requires
        !c.enabled,
    ensures
        applied(c, emoji) == unchanged(c),
        scheduled(c, emoji) == unchanged(c),
        concluded(c, emoji) == unchanged(c),
        done(c, n) == unchanged(c),
        cleared(c) == unchanged(c),
        moved(c, message) == unchanged(c),
        adopted(c) == c,
{
}

// ---------------------------------------------------------------------------
// The heartbeat
// ---------------------------------------------------------------------------

/// How often the heartbeat is sent, in seconds.
pub const ACTIVITY_HEARTBEAT_SECS: u64 = 600;

/// What the heartbeat says.
pub open spec fn heartbeat_text(label: Seq<char>) -> Seq<char> {
    "["@ + label + "] 作業中: ACPセッション処理中"@
}

/// A message to send at once and then at each interval.
#[derive(Debug)]
pub struct Heartbeat {
    pub channel: ChannelRef,
    pub content: String,
    pub interval: Duration,
}

/// What bears on the heartbeat.
#[derive(Debug, Clone, Copy, PartialEq, Eq, Structural)]
pub enum BeatEvent {
    /// A turn begins.
    Begin,
    /// A turn ends.
    End,
    /// The interval has passed since the message was sent last.
    Interval,
}

/// How the heartbeat stands.
pub struct BeatView {
    /// There is someone to send it.
    pub connected: bool,
    /// The turns that run.
    pub turns: nat,
}

/// How the heartbeat stands after an event.
pub open spec fn beat_next(s: BeatView, event: BeatEvent) -> BeatView {
    match event {
        BeatEvent::Begin => BeatView { turns: s.turns + 1, ..s },
        BeatEvent::End => BeatView {
            turns: if s.turns == 0 {
                0
            } else {
                (s.turns - 1) as nat
            },
            ..s
        },
        BeatEvent::Interval => s,
    }
}

/// The message is sent at an event: with the first turn, and then each time the
/// interval has passed while turns run.
pub open spec fn beat_sends(s: BeatView, event: BeatEvent) -> bool {
    s.connected && match event {
        BeatEvent::Begin => s.turns == 0,
        BeatEvent::End => false,
        BeatEvent::Interval => s.turns > 0,
    }
}

/// The heartbeat starts at an event.
pub open spec fn beat_starts(s: BeatView, event: BeatEvent) -> bool {
    s.connected && event is Begin && s.turns == 0
}

/// The heartbeat stops at an event: with the last turn.
pub open spec fn beat_stops(s: BeatView, event: BeatEvent) -> bool {
    s.connected && event is End && s.turns == 1
}

/// Counts the turns that run, and says when the heartbeat is sent and stops.
#[derive(Debug)]
pub struct ActivityHeartbeatManager {
    connected: bool,
    channel: String,
    content: String,
    interval: Duration,
    active_turns: usize,
}

impl ActivityHeartbeatManager {
    /// How the heartbeat stands.
    pub closed spec fn beat(&self) -> BeatView {
        BeatView { connected: self.connected, turns: self.active_turns as nat }
    }

    pub closed spec fn channel(&self) -> Seq<char> {
        self.channel@
    }

    pub closed spec fn content(&self) -> Seq<char> {
        self.content@
    }

    pub closed spec fn interval(&self) -> Duration {
        self.interval
    }

    pub open spec fn same_setup(&self, other: &Self) -> bool {
        &&& self.channel() == other.channel()
        &&& self.content() == other.content()
        &&& self.interval() == other.interval()
    }

    /// The heartbeat is that of this manager.
    pub open spec fn is_beat(&self, beat: Heartbeat) -> bool {
        &&& beat.channel@ == (crate::adapter::ChannelView {
            platform: "discord"@,
            channel_id: self.channel(),
            thread_id: None,
            parent_id: None,
            origin_event_id: None,
        })
        &&& beat.content@ == self.content()
        &&& beat.interval == self.interval()
    }

    /// A manager with the usual interval. `adapter_present` says that there is
    /// an adapter to send the heartbeat with.
    pub fn new(config: &ActivityHeartbeatConfig, adapter_present: bool) -> (r: Self)
        ensures
            r.beat() == (BeatView { connected: config.enabled && adapter_present, turns: 0 }),
            r.channel() == config.channel@,
            r.content() == heartbeat_text(config.label@),
            r.interval() == (Duration { secs: ACTIVITY_HEARTBEAT_SECS, nanos: 0 }),
    {
        Self::with_interval(config, adapter_present, Duration::from_secs(ACTIVITY_HEARTBEAT_SECS))
    }

    /// A manager with another interval.
    pub fn with_interval(
        config: &ActivityHeartbeatConfig,
        adapter_present: bool,
        interval: Duration,
    ) -> (r: Self)
        ensures
            r.beat() == (BeatView { connected: config.enabled && adapter_present, turns: 0 }),
            r.channel() == config.channel@,
            r.content() == heartbeat_text(config.label@),
            r.interval() == interval,
    {
        let mut content = "[".to_owned();
        content.push_str(config.label.as_str());
        content.push_str("] 作業中: ACPセッション処理中");
        ActivityHeartbeatManager {
            connected: config.enabled && adapter_present,
            channel: config.channel.clone(),
            content,
            interval,
            active_turns: 0,
        }
    }

    /// How many turns run.
    pub fn turns(&self) -> (r: usize)
        ensures
            r == self.beat().turns,
    {
        self.active_turns
    }

    fn heartbeat(&self) -> (r: Heartbeat)
        ensures
            self.is_beat(r),
    {
        let channel = ChannelRef {
            platform: "discord".to_owned(),
            channel_id: self.channel.clone(),
            thread_id: None,
            parent_id: None,
            origin_event_id: None,
        };
        Heartbeat { channel, content: self.content.clone(), interval: self.interval }
    }

    /// A turn begins: what is to be sent at once, which is something when the
    /// turn is the only one.
    pub fn begin_turn(&mut self) -> (r: Option<Heartbeat>)
        requires
            old(self).beat().turns < usize::MAX,
        ensures
            final(self).same_setup(old(self)),
            final(self).beat() == beat_next(old(self).beat(), BeatEvent::Begin),
            match r {
                Some(beat) => beat_sends(old(self).beat(), BeatEvent::Begin) && old(self).is_beat(
                    beat,
                ),
                None => !beat_sends(old(self).beat(), BeatEvent::Begin),
            },
    {
        self.active_turns += 1;
        if self.active_turns == 1 && self.connected {
            Some(self.heartbeat())
        } else {
            None
        }
    }

    /// The interval has passed since the message was sent last: what is to be
    /// sent again, as long as turns run.
    pub fn on_interval(&self) -> (r: Option<Heartbeat>)
        ensures
            match r {
                Some(beat) => beat_sends(self.beat(), BeatEvent::Interval) && self.is_beat(beat),
                None => !beat_sends(self.beat(), BeatEvent::Interval),
            },
    {
        if self.connected && self.active_turns > 0 {
            Some(self.heartbeat())
        } else {
            None
        }
    }

    /// A turn ends: whether the heartbeat is to stop, which it is with the last.
    pub fn end_turn(&mut self) -> (r: bool)
        ensures
            final(self).same_setup(old(self)),
            final(self).beat() == beat_next(old(self).beat(), BeatEvent::End),
            r == beat_stops(old(self).beat(), BeatEvent::End),
    {
        if self.active_turns > 0 {
            self.active_turns -= 1;
            self.connected && self.active_turns == 0
        } else {
            false
        }
    }
}

/// How the heartbeat stands after events in order.
pub open spec fn beat_after(s: BeatView, events: Seq<BeatEvent>) -> BeatView
    decreases events.len(),
{
    if events.len() == 0 {
        s
    } else {
        beat_next(beat_after(s, events.drop_last()), events.last())
    }
}

/// How many of the events are such.
pub open spec fn times_of(events: Seq<BeatEvent>, event: BeatEvent) -> nat
    decreases events.len(),
{
    if events.len() == 0 {
        0
    } else {
        times_of(events.drop_last(), event) + if events.last() == event {
            1nat
        } else {
            0nat
        }
    }
}

/// No turn ends that did not begin.
pub open spec fn turns_begin_before_they_end(events: Seq<BeatEvent>) -> bool {
    forall|k: int|
        0 <= k <= events.len() ==> times_of(#[trigger] events.take(k), BeatEvent::End) <= times_of(
            events.take(k),
            BeatEvent::Begin,
        )
}

/// How often the heartbeat was started.
pub open spec fn starts(s: BeatView, events: Seq<BeatEvent>) -> nat
    decreases events.len(),
{
    if events.len() == 0 {
        0
    } else {
        let front = events.drop_last();
        starts(s, front) + if beat_starts(beat_after(s, front), events.last()) {
            1nat
        } else {
            0nat
        }
    }
}

/// How often the heartbeat was stopped.
pub open spec fn stops(s: BeatView, events: Seq<BeatEvent>) -> nat
    decreases events.len(),
{
    if events.len() == 0 {
        0
    } else {
        let front = events.drop_last();
        stops(s, front) + if beat_stops(beat_after(s, front), events.last()) {
            1nat
        } else {
            0nat
        }
    }
}

/// However turns begin and end, overlapping or not, one heartbeat is shared: it
/// runs exactly while a turn runs and there is someone to send it. More turns
/// start no second one; the last that ends stops it, and nothing more is sent.
pub proof fn lemma_heartbeat_is_shared(connected: bool, events: Seq<BeatEvent>)
    requires
        turns_begin_before_they_end(events),
    ensures
        ({
            let s = BeatView { connected, turns: 0 };
            let after = beat_after(s, events);
            let begun = times_of(events, BeatEvent::Begin);
            let ended = times_of(events, BeatEvent::End);
            &&& after.connected == connected
            &&& after.turns == begun - ended
            &&& beat_sends(after, BeatEvent::Interval) == (connected && begun > ended)
            &&& starts(s, events) - stops(s, events) == if connected && begun > ended {
                1int
            } else {
                0int
            }
        }),
    decreases events.len(),
{
    assert(events.take(events.len() as int) =~= events);
    if events.len() > 0 {
        let front = events.drop_last();
        assert forall|k: int| 0 <= k <= front.len() implies times_of(
            #[trigger] front.take(k),
            BeatEvent::End,
        ) <= times_of(front.take(k), BeatEvent::Begin) by {
            assert(front.take(k) =~= events.take(k));
        }
        lemma_heartbeat_is_shared(connected, front);
    }
}

/// Without someone to send it, the heartbeat is never sent.
pub proof fn lemma_no_heartbeat_unconnected(s: BeatView, events: Seq<BeatEvent>, event: BeatEvent)
    requires
        !s.connected,
    ensures
        !beat_after(s, events).connected,
        !beat_sends(beat_after(s, events), event),
        starts(s, events) == 0,
    decreases events.len(),
{
    if events.len() > 0 {
        lemma_no_heartbeat_unconnected(s, events.drop_last(), event);
    }
}

// ---------------------------------------------------------------------------
// The heartbeat in time
// ---------------------------------------------------------------------------

/// The events of a history, without their times.
pub open spec fn beat_events(history: Seq<(nat, BeatEvent)>) -> Seq<BeatEvent> {
    history.map_values(|x: (nat, BeatEvent)| x.1)
}

/// How the heartbeat stands after a history.
pub open spec fn beat_at(connected: bool, history: Seq<(nat, BeatEvent)>) -> BeatView {
    beat_after(BeatView { connected, turns: 0 }, beat_events(history))
}

/// When the message was sent last.
pub open spec fn last_sent(connected: bool, history: Seq<(nat, BeatEvent)>) -> nat
    decreases history.len(),
{
    if history.len() == 0 {
        0
    } else {
        let front = history.drop_last();
        if beat_sends(beat_at(connected, front), history.last().1) {
            history.last().0
        } else {
            last_sent(connected, front)
        }
    }
}

/// Since when turns run without a break.
pub open spec fn busy_since(connected: bool, history: Seq<(nat, BeatEvent)>) -> nat
    decreases history.len(),
{
    if history.len() == 0 {
        0
    } else {
        let front = history.drop_last();
        if beat_starts(beat_at(connected, front), history.last().1) {
            history.last().0
        } else {
            busy_since(connected, front)
        }
    }
}

/// How often the message was sent since turns run without a break.
pub open spec fn sent_since(connected: bool, history: Seq<(nat, BeatEvent)>) -> nat
    decreases history.len(),
{
    if history.len() == 0 {
        0
    } else {
        let front = history.drop_last();
        let s = beat_at(connected, front);
        if beat_starts(s, history.last().1) {
            1
        } else if beat_sends(s, history.last().1) {
            sent_since(connected, front) + 1
        } else {
            sent_since(connected, front)
        }
    }
}

/// The timer keeps its time: it goes off when the interval has passed since the
/// message was sent last, and no later, as long as the heartbeat runs.
pub open spec fn on_time(connected: bool, history: Seq<(nat, BeatEvent)>, interval: nat) -> bool
    decreases history.len(),
{
    if history.len() == 0 {
        true
    } else {
        let front = history.drop_last();
        let (at, event) = history.last();
        let s = beat_at(connected, front);
        let due = last_sent(connected, front) + interval;
        &&& on_time(connected, front, interval)
        &&& front.len() > 0 ==> front.last().0 <= at
        &&& if s.connected && s.turns > 0 {
            if event is Interval {
                at == due
            } else {
                at <= due
            }
        } else {
            !(event is Interval)
        }
    }
}

/// While turns run, the message is sent at once and then at each interval, no
/// more often with more turns: by any moment before the next is due, it was sent
/// once for the start and once for each whole interval since.
pub proof fn lemma_heartbeat_keeps_time(
    history: Seq<(nat, BeatEvent)>,
    interval: nat,
    now: nat,
)
    requires
        on_time(true, history, interval),
        beat_at(true, history).turns > 0,
        interval > 0,
        history.last().0 <= now < last_sent(true, history) + interval,
    ensures
        busy_since(true, history) <= now,
        sent_since(true, history) == (now - busy_since(true, history)) / (interval as int) + 1,
        last_sent(true, history) == busy_since(true, history) + (sent_since(true, history) - 1)
            * interval,
{
    lemma_beats_are_spaced(history, interval);
    let from = busy_since(true, history);
    let n = sent_since(true, history) - 1;
    let rest = now - last_sent(true, history);
    assert(now - from == n * interval + rest);
    vstd::arithmetic::div_mod::lemma_fundamental_div_mod_converse(
        now - from,
        interval as int,
        n,
        rest,
    );
}

proof fn lemma_beats_are_spaced(history: Seq<(nat, BeatEvent)>, interval: nat)
    requires
        on_time(true, history, interval),
    ensures
        history.len() > 0 ==> last_sent(true, history) <= history.last().0,
        beat_at(true, history).connected,
        beat_at(true, history).turns > 0 ==> {
            &&& history.len() > 0
            &&& sent_since(true, history) >= 1
            &&& last_sent(true, history) == busy_since(true, history) + (sent_since(true, history)
                - 1) * interval
        },
    decreases history.len(),
{
    if history.len() > 0 {
        let front = history.drop_last();
        lemma_beats_are_spaced(front, interval);
        assert(beat_events(history).drop_last() =~= beat_events(front));
        if front.len() == 0 {
            assert(last_sent(true, front) == 0);
        }
        let k = sent_since(true, front) as int;
        assert(k * interval == (k - 1) * interval + interval) by (nonlinear_arith);
        assert((1 - 1) * interval == 0) by (nonlinear_arith);
    } else {
        assert(beat_events(history) =~= Seq::empty());
    }
}

// ---------------------------------------------------------------------------
// What each call does
// ---------------------------------------------------------------------------

/// An emoji that is set at once shows from then on, unless the turn is finished
/// or it shows already; the pending one is given up first, and the watch for
/// stalls starts anew last.
pub proof fn lemma_setting_at_once(c: ControllerView, emoji: Seq<char>)
    requires
        c.enabled,
    ensures
        ({
            let (after, steps) = applied(c, emoji);
            if c.finished || emoji == c.current {
                after == c && steps.len() == 0
            } else {
                &&& after == (ControllerView { current: emoji, ..c })
                &&& steps.len() >= 4
                &&& steps[0] == ReactionView::CancelDebounce
                &&& steps[1] == (ReactionView::Add { message: c.message, emoji })
                &&& steps[steps.len() - 2] == ReactionView::CancelStall
                &&& steps.last() == (ReactionView::StartStall {
                    soft_ms: c.timing.stall_soft_ms,
                    hard_ms: c.timing.stall_hard_ms,
                })
            }
        }),
{
}

/// An emoji that is to be set after a while changes nothing yet: its timer takes
/// the place of the one before, with the delay that is configured. In any case
/// the watch for stalls starts anew.
pub proof fn lemma_setting_later(c: ControllerView, emoji: Seq<char>)
    requires
        c.enabled,
    ensures
        ({
            let (after, steps) = scheduled(c, emoji);
            let timer = ReactionView::StartDebounce { ms: c.timing.debounce_ms, emoji };
            &&& after == c
            &&& steps.contains(timer) <==> !c.finished && emoji != c.current
            &&& steps.contains(timer) ==> steps[0] == ReactionView::CancelDebounce && steps[1]
                == timer
            &&& steps.len() >= 2
            &&& steps[steps.len() - 2] == ReactionView::CancelStall
            &&& steps.last() == (ReactionView::StartStall {
                soft_ms: c.timing.stall_soft_ms,
                hard_ms: c.timing.stall_hard_ms,
            })
            &&& forall|i: int|
                0 <= i < steps.len() ==> !((#[trigger] steps[i]) is Add) && !(steps[i] is Remove)
        }),
{
    let steps = scheduled(c, emoji).1;
    if !c.finished && emoji != c.current {
        assert(steps[1] == ReactionView::StartDebounce { ms: c.timing.debounce_ms, emoji });
    }
}

/// A timer that runs out sets its emoji, unless the turn is finished.
pub proof fn lemma_timer_sets_its_emoji(c: ControllerView, emoji: Seq<char>)
    requires
        !c.finished,
    ensures
        timed(c, emoji).0 == (ControllerView { current: emoji, ..c }),
        timed(c, emoji).1.len() > 0,
        timed(c, emoji).1[0] == (ReactionView::Add { message: c.message, emoji }),
{
}

/// A turn that ends stops every timer, starts none and shows its last emoji.
pub proof fn lemma_ending_a_turn(c: ControllerView, emoji: Seq<char>, n: nat)
    requires
        c.enabled,
        !c.finished,
    ensures
        concluded(c, emoji).0 == (ControllerView { current: emoji, finished: true, ..c }),
        concluded(c, emoji).1.contains(ReactionView::CancelDebounce),
        concluded(c, emoji).1.contains(ReactionView::CancelStall),
        concluded(c, emoji).1.contains(ReactionView::Add { message: c.message, emoji }),
        forall|i: int|
            0 <= i < concluded(c, emoji).1.len() ==> !((#[trigger] concluded(c, emoji).1[i])
                is StartDebounce) && !(concluded(c, emoji).1[i] is StartStall),
        done(c, n).0 == (ControllerView { current: c.emojis.done, finished: true, ..c }),
        done(c, n).1.len() == concluded(c, c.emojis.done).1.len() + 1,
        done(c, n).1.last() == (ReactionView::Add { message: c.message, emoji: face(n) }),
{
    let steps = concluded(c, emoji).1;
    assert(steps[0] == ReactionView::CancelDebounce);
    assert(steps[1] == ReactionView::CancelStall);
    assert(steps[2] == ReactionView::Add { message: c.message, emoji });
}

/// Clearing stops every timer and takes the emoji off, if there is one.
pub proof fn lemma_clearing(c: ControllerView)
    requires
        c.enabled,
    ensures
        cleared(c).0.current.len() == 0,
        cleared(c).0.finished == c.finished && cleared(c).0.message == c.message,
        cleared(c).1.contains(ReactionView::CancelDebounce),
        cleared(c).1.contains(ReactionView::CancelStall),
        c.current.len() > 0 ==> cleared(c).1.last() == (ReactionView::Remove {
            message: c.message,
            emoji: c.current,
        }),
        c.current.len() == 0 ==> cleared(c).1.len() == 2,
{
    assert(cleared(c).1[0] == ReactionView::CancelDebounce);
    assert(cleared(c).1[1] == ReactionView::CancelStall);
}

/// From a move on, what is set is set on the new message; the emoji itself stays
/// the same.
pub proof fn lemma_moving(c: ControllerView, message: crate::adapter::RefView)
    requires
        c.enabled,
    ensures
        moved(c, message).0 == (ControllerView { message, ..c }),
        !c.finished && c.current.len() > 0 && (c.message.message_id != message.message_id
            || c.message.channel.channel_id != message.channel.channel_id) ==> moved(c, message).1
            == seq![
            ReactionView::Add { message, emoji: c.current },
            ReactionView::Remove { message: c.message, emoji: c.current },
        ],
{
}

/// The queued emoji that someone else has set counts as shown, where none does.
pub proof fn lemma_taking_over_the_queued_emoji(c: ControllerView)
    requires
        c.enabled,
    ensures
        adopted(c) == (ControllerView {
            current: if c.current.len() == 0 {
                c.emojis.queued
            } else {
                c.current
            },
            ..c
        }),
{
}

/// A tool is shown as reaching the web if its name says so, whatever else it
/// says; else as coding if it says that; else as a tool.
pub proof fn lemma_which_emoji_a_tool_gets(n: Seq<char>, emojis: crate::config::EmojisView)
    ensures
        ({
            let web = crate::text::occurs(n, "web_search"@) || crate::text::occurs(n, "web_fetch"@)
                || crate::text::occurs(n, "web-search"@) || crate::text::occurs(n, "web-fetch"@)
                || crate::text::occurs(n, "browser"@);
            let coding = crate::text::occurs(n, "exec"@) || crate::text::occurs(n, "process"@)
                || crate::text::occurs(n, "read"@) || crate::text::occurs(n, "write"@)
                || crate::text::occurs(n, "edit"@) || crate::text::occurs(n, "bash"@)
                || crate::text::occurs(n, "shell"@);
            &&& web ==> tool_emoji(n, emojis) == emojis.web
            &&& !web && coding ==> tool_emoji(n, emojis) == emojis.coding
            &&& !web && !coding ==> tool_emoji(n, emojis) == emojis.tool
        }),
{
}

/// The eight faces come in turn.
pub proof fn lemma_faces_come_in_turn(n: nat)
    ensures
        face(n + 8) == face(n),
        face(0) == "😊"@ && face(1) == "😎"@ && face(2) == "🫡"@ && face(3) == "🤓"@,
        face(4) == "😏"@ && face(5) == "✌️"@ && face(6) == "💪"@ && face(7) == "🦾"@,
{
}

/// The heartbeat is sent when the first turn begins, and not when another joins
/// it; it names the bot.
pub proof fn lemma_first_turn_sends(turns: nat, label: Seq<char>)
    ensures
        beat_sends(BeatView { connected: true, turns }, BeatEvent::Begin) <==> turns == 0,
        beat_starts(BeatView { connected: true, turns }, BeatEvent::Begin) <==> turns == 0,
        beat_stops(BeatView { connected: true, turns }, BeatEvent::End) <==> turns == 1,
        heartbeat_text(label) == "["@ + label + "] 作業中: ACPセッション処理中"@,
{
}

} // verus!
