//! A live status line whose every word is backed by an observed event.
//!
//! A phase is entered only by the event that proves it. Time alone never
//! promotes a phase: it can only report silence, and silence is labelled as
//! silence.

use vstd::prelude::*;

use crate::text::{begins_with, chars_of, join, push_decimal, same_str};
use crate::time::Duration;

verus! {

broadcast use vstd::seq_lib::group_seq_properties;

/// What the agent is doing, as far as anyone was told.
#[derive(Debug, PartialEq, Eq)]
pub enum Phase {
    /// The prompt was sent. Nothing has come back.
    Accepted,
    /// The agent reported that it thinks.
    Thinking,
    /// A tool is running: its start was reported, its end was not.
    Tool { title: String },
    /// Nothing has arrived for a while; with what was known last.
    Silent { last_known: Box<Phase> },
}

pub enum PhaseView {
    Accepted,
    Thinking,
    Tool { title: Seq<char> },
    Silent { last_known: Box<PhaseView> },
}

pub open spec fn phase_view(phase: Phase) -> PhaseView
    decreases phase,
{
    match phase {
        Phase::Accepted => PhaseView::Accepted,
        Phase::Thinking => PhaseView::Thinking,
        Phase::Tool { title } => PhaseView::Tool { title: title@ },
        Phase::Silent { last_known } => PhaseView::Silent {
            last_known: Box::new(phase_view(*last_known)),
        },
    }
}

impl View for Phase {
    type V = PhaseView;

    open spec fn view(&self) -> PhaseView {
        phase_view(*self)
    }
}

impl Clone for Phase {
    fn clone(&self) -> (r: Self)
        ensures
            r@ == self@,
        decreases self,
    {
        match self {
            Phase::Accepted => Phase::Accepted,
            Phase::Thinking => Phase::Thinking,
            Phase::Tool { title } => Phase::Tool { title: title.clone() },
            Phase::Silent { last_known } => Phase::Silent {
                last_known: Box::new((**last_known).clone()),
            },
        }
    }
}

/// Whether two phases are equal.
fn same_phase(a: &Phase, b: &Phase) -> (r: bool)
    ensures
        r == (a@ == b@),
    decreases a,
{
    match (a, b) {
        (Phase::Accepted, Phase::Accepted) => true,
        (Phase::Thinking, Phase::Thinking) => true,
        (Phase::Tool { title: x }, Phase::Tool { title: y }) => same_str(x.as_str(), y.as_str()),
        (Phase::Silent { last_known: x }, Phase::Silent { last_known: y }) => same_phase(x, y),
        _ => false,
    }
}

pub open spec fn glyph(phase: PhaseView) -> Seq<char> {
    match phase {
        PhaseView::Accepted => "⏳"@,
        PhaseView::Thinking => "🤔"@,
        PhaseView::Tool { title } => "🔧"@,
        PhaseView::Silent { last_known } => "…"@,
    }
}

/// What is said of a phase. Of silence, what was heard last.
pub open spec fn label(phase: PhaseView) -> Seq<char>
    decreases phase,
{
    match phase {
        PhaseView::Accepted => "受け取りました"@,
        PhaseView::Thinking => "考えています"@,
        PhaseView::Tool { title } => "実行中: "@ + title,
        PhaseView::Silent { last_known } => match *last_known {
            PhaseView::Accepted => "応答がまだありません"@,
            other => "反応がありません（直前: "@ + label(*last_known) + "）"@,
        },
    }
}

impl Phase {
    pub fn glyph(&self) -> (r: &'static str)
        ensures
            r@ == glyph(self@),
    {
        match self {
            Phase::Accepted => "⏳",
            Phase::Thinking => "🤔",
            Phase::Tool { .. } => "🔧",
            Phase::Silent { .. } => "…",
        }
    }

    pub fn label(&self) -> (r: String)
        ensures
            r@ == label(self@),
        decreases self,
    {
        proof {
            reveal_with_fuel(phase_view, 2);
        }
        match self {
            Phase::Accepted => "受け取りました".to_owned(),
            Phase::Thinking => "考えています".to_owned(),
            Phase::Tool { title } => {
                let mut out = "実行中: ".to_owned();
                out.push_str(title.as_str());
                out
            },
            Phase::Silent { last_known } => match **last_known {
                Phase::Accepted => "応答がまだありません".to_owned(),
                _ => {
                    let mut out = "反応がありません（直前: ".to_owned();
                    out.push_str((**last_known).label().as_str());
                    out.push_str("）");
                    out
                },
            },
        }
    }
}

// ---------------------------------------------------------------------------
// The model
// ---------------------------------------------------------------------------

/// The observed facts about one turn.
#[verifier::ext_equal]
pub struct StatusView {
    pub phase: PhaseView,
    /// Milliseconds since the prompt was sent.
    pub elapsed_ms: u64,
    /// When the last event arrived.
    pub last_event_ms: u64,
    /// When the phase began.
    pub phase_since_ms: u64,
    /// The tools that run, with their titles, in the order of their start.
    pub running: Seq<(Seq<char>, Seq<char>)>,
    /// The tools that ended, and whether they succeeded.
    pub finished: Seq<bool>,
    /// Silence as long as this is reported.
    pub silence_ms: u64,
}

/// The milliseconds of a span, as far as sixty-four bits hold them.
pub open spec fn millis64(span: Duration) -> u64 {
    (span.in_millis() % 0x1_0000_0000_0000_0000) as u64
}

fn millis64_of(span: Duration) -> (r: u64)
    ensures
        r == millis64(span),
{
    (span.as_millis() % 0x1_0000_0000_0000_0000u128) as u64
}

pub open spec fn larger(a: u64, b: u64) -> u64 {
    if a >= b {
        a
    } else {
        b
    }
}

/// A new phase begins now; the same phase goes on.
pub open spec fn entered(s: StatusView, phase: PhaseView) -> StatusView {
    if s.phase == phase {
        s
    } else {
        StatusView { phase, phase_since_ms: s.elapsed_ms, ..s }
    }
}

/// An event was observed now.
pub open spec fn observed(s: StatusView) -> StatusView {
    StatusView { last_event_ms: s.elapsed_ms, ..s }
}

/// The clock advanced. It never goes back, and only ever demotes to silence.
pub open spec fn ticked(s: StatusView, elapsed_ms: u64) -> StatusView {
    let t = StatusView { elapsed_ms: larger(s.elapsed_ms, elapsed_ms), ..s };
    let quiet = if t.elapsed_ms >= t.last_event_ms {
        t.elapsed_ms - t.last_event_ms
    } else {
        0
    };
    if t.phase is Silent || t.running.len() > 0 || quiet < t.silence_ms {
        t
    } else {
        entered(t, PhaseView::Silent { last_known: Box::new(t.phase) })
    }
}

/// The agent reported that it thinks.
pub open spec fn thought(s: StatusView) -> StatusView {
    let t = observed(s);
    if t.running.len() == 0 {
        entered(t, PhaseView::Thinking)
    } else {
        t
    }
}

/// Where a tool stands from `i` on; the number of tools if it does not.
pub open spec fn running_place(running: Seq<(Seq<char>, Seq<char>)>, id: Seq<char>, i: int) -> int
    decreases running.len() - i,
{
    if i >= running.len() {
        running.len() as int
    } else if running[i].0 == id {
        i
    } else {
        running_place(running, id, i + 1)
    }
}

/// The tools that run after one was started, or gained another title.
pub open spec fn running_with(
    running: Seq<(Seq<char>, Seq<char>)>,
    id: Seq<char>,
    title: Seq<char>,
) -> Seq<(Seq<char>, Seq<char>)> {
    let k = running_place(running, id, 0);
    if k < running.len() {
        running.update(k, (id, title))
    } else {
        running.push((id, title))
    }
}

/// The tools that run but for one.
pub open spec fn running_without(running: Seq<(Seq<char>, Seq<char>)>, id: Seq<char>) -> Seq<
    (Seq<char>, Seq<char>),
>
    decreases running.len(),
{
    if running.len() == 0 {
        running
    } else {
        let front = running_without(running.drop_last(), id);
        if running.last().0 == id {
            front
        } else {
            front.push(running.last())
        }
    }
}

/// What is known while these tools run: the last that was started.
pub open spec fn tool_phase(running: Seq<(Seq<char>, Seq<char>)>) -> PhaseView {
    if running.len() > 0 {
        PhaseView::Tool { title: running.last().1 }
    } else {
        PhaseView::Thinking
    }
}

/// The start of a tool was reported.
pub open spec fn tool_started(s: StatusView, id: Seq<char>, title: Seq<char>) -> StatusView {
    let running = running_with(s.running, id, title);
    entered(StatusView { running, ..observed(s) }, tool_phase(running))
}

/// The end of a tool was reported.
pub open spec fn tool_ended(s: StatusView, id: Seq<char>, succeeded: bool) -> StatusView {
    let running = running_without(s.running, id);
    entered(
        StatusView { running, finished: s.finished.push(succeeded), ..observed(s) },
        tool_phase(running),
    )
}

/// Nothing has been heard.
pub open spec fn fresh_status(silence_ms: u64) -> StatusView {
    StatusView {
        phase: PhaseView::Accepted,
        elapsed_ms: 0,
        last_event_ms: 0,
        phase_since_ms: 0,
        running: Seq::empty(),
        finished: Seq::empty(),
        silence_ms,
    }
}

/// Seconds, or minutes and seconds.
pub open spec fn duration_text(ms: u64) -> Seq<char> {
    let seconds = ms / 1_000;
    if seconds < 60 {
        crate::text::decimal(seconds as nat) + "秒"@
    } else {
        crate::text::decimal((seconds / 60) as nat) + "分"@ + crate::text::decimal(
            (seconds % 60) as nat,
        ) + "秒"@
    }
}

/// The number of tools that failed.
pub open spec fn failures(finished: Seq<bool>) -> nat
    decreases finished.len(),
{
    if finished.len() == 0 {
        0
    } else {
        failures(finished.drop_last()) + if finished.last() {
            0nat
        } else {
            1nat
        }
    }
}

/// The counts that the line gives.
pub open spec fn facts(s: StatusView) -> Seq<Seq<char>> {
    let done = s.finished.len();
    let failed = failures(s.finished);
    let ended = if done == 0 {
        Seq::empty()
    } else if failed > 0 {
        seq![
            "ツール"@ + crate::text::decimal(done) + "件（失敗"@ + crate::text::decimal(failed)
                + "）"@,
        ]
    } else {
        seq!["ツール"@ + crate::text::decimal(done) + "件"@]
    };
    if s.running.len() > 1 {
        ended.push("並行"@ + crate::text::decimal(s.running.len()) + "件"@)
    } else {
        ended
    }
}

/// The line as shown.
pub open spec fn line(s: StatusView) -> Seq<char> {
    let head = glyph(s.phase) + " "@ + label(s.phase) + " · "@ + duration_text(s.elapsed_ms);
    if facts(s).len() > 0 {
        head + "　"@ + crate::text::joined(facts(s), " · "@)
    } else {
        head
    }
}

// ---------------------------------------------------------------------------
// The status
// ---------------------------------------------------------------------------

/// Seconds, or minutes and seconds.
pub fn format_duration(ms: u64) -> (r: String)
    ensures
        r@ == duration_text(ms),
{
    let seconds: u64 = ms / 1_000;
    let mut out = String::new();
    if seconds < 60 {
        push_decimal(&mut out, seconds);
    } else {
        push_decimal(&mut out, seconds / 60);
        out.push_str("分");
        push_decimal(&mut out, seconds % 60);
    }
    out.push_str("秒");
    assert(out@ =~= duration_text(ms));
    out
}

/// A tool that runs.
#[derive(Debug)]
struct Running {
    id: String,
    title: String,
}

spec fn pairs(running: Seq<Running>) -> Seq<(Seq<char>, Seq<char>)> {
    running.map_values(|t: Running| (t.id@, t.title@))
}

/// Observed facts about one turn. Nothing is inferred.
#[derive(Debug)]
pub struct LiveStatus {
    phase: Phase,
    elapsed_ms: u64,
    last_event_ms: u64,
    phase_since_ms: u64,
    running_tools: Vec<Running>,
    finished_tools: Vec<bool>,
    silence_ms: u64,
}

impl View for LiveStatus {
    type V = StatusView;

    closed spec fn view(&self) -> StatusView {
        StatusView {
            phase: self.phase@,
            elapsed_ms: self.elapsed_ms,
            last_event_ms: self.last_event_ms,
            phase_since_ms: self.phase_since_ms,
            running: pairs(self.running_tools@),
            finished: self.finished_tools@,
            silence_ms: self.silence_ms,
        }
    }
}

impl Clone for LiveStatus {
    fn clone(&self) -> (r: Self)
        ensures
            r@ == self@,
    {
        let mut running_tools: Vec<Running> = Vec::new();
        let mut i: usize = 0;
        while i < self.running_tools.len()
            invariant
                i <= self.running_tools@.len(),
                pairs(running_tools@) =~= pairs(self.running_tools@).take(i as int),
            decreases self.running_tools.len() - i,
        {
            let ghost before = running_tools@;
            let tool = &self.running_tools[i];
            running_tools.push(Running { id: tool.id.clone(), title: tool.title.clone() });
            assert(pairs(running_tools@) =~= pairs(before).push((tool.id@, tool.title@)));
            i += 1;
        }
        let finished_tools = self.finished_tools.clone();
        assert(finished_tools@ =~= self.finished_tools@);
        let r = LiveStatus {
            phase: self.phase.clone(),
            elapsed_ms: self.elapsed_ms,
            last_event_ms: self.last_event_ms,
            phase_since_ms: self.phase_since_ms,
            running_tools,
            finished_tools,
            silence_ms: self.silence_ms,
        };
        assert(r@ =~= self@);
        r
    }
}

impl LiveStatus {
    /// A turn of which nothing has been heard.
    pub fn new(silence_after: Duration) -> (r: Self)
        ensures
            r@ == fresh_status(millis64(silence_after)),
    {
        let r = LiveStatus {
            phase: Phase::Accepted,
            elapsed_ms: 0,
            last_event_ms: 0,
            phase_since_ms: 0,
            running_tools: Vec::new(),
            finished_tools: Vec::new(),
            silence_ms: millis64_of(silence_after),
        };
        assert(r@ =~= fresh_status(millis64(silence_after)));
        r
    }

    pub fn phase(&self) -> (r: &Phase)
        ensures
            r@ == self@.phase,
    {
        &self.phase
    }

    fn enter(&mut self, phase: Phase)
        ensures
            final(self)@ == entered(old(self)@, phase@),
    {
        if !same_phase(&self.phase, &phase) {
            self.phase_since_ms = self.elapsed_ms;
            self.phase = phase;
        }
    }

    /// Advances the clock. Only ever demotes to silence.
    pub fn tick(&mut self, elapsed: Duration)
        ensures
            final(self)@ == ticked(old(self)@, millis64(elapsed)),
    {
        let elapsed_ms: u64 = millis64_of(elapsed);
        if self.elapsed_ms < elapsed_ms {
            self.elapsed_ms = elapsed_ms;
        }
        if let Phase::Silent { .. } = self.phase {
            return;
        }
        assert(self@.running.len() == self.running_tools@.len());
        if self.running_tools.len() > 0 {
            return;
        }
        let quiet: u64 = if self.elapsed_ms >= self.last_event_ms {
            self.elapsed_ms - self.last_event_ms
        } else {
            0
        };
        if quiet >= self.silence_ms {
            let last_known = Box::new(self.phase.clone());
            self.enter(Phase::Silent { last_known });
        }
    }

    /// The agent reported that it thinks.
    pub fn on_thinking(&mut self)
        ensures
            final(self)@ == thought(old(self)@),
    {
        self.last_event_ms = self.elapsed_ms;
        assert(self@.running.len() == self.running_tools@.len());
        if self.running_tools.len() == 0 {
            self.enter(Phase::Thinking);
        }
    }

    fn running_index(&self, id: &str) -> (r: usize)
        ensures
            r == running_place(self@.running, id@, 0),
            r <= self.running_tools@.len(),
    {
        let mut i: usize = 0;
        while i < self.running_tools.len()
            invariant
                i <= self.running_tools@.len(),
                running_place(self@.running, id@, 0) == running_place(
                    self@.running,
                    id@,
                    i as int,
                ),
            decreases self.running_tools.len() - i,
        {
            assert(self@.running[i as int].0 == self.running_tools@[i as int].id@);
            if same_str(self.running_tools[i].id.as_str(), id) {
                return i;
            }
            i += 1;
        }
        i
    }

    fn enter_tool_phase(&mut self)
        ensures
            final(self)@ == entered(old(self)@, tool_phase(old(self)@.running)),
    {
        let n: usize = self.running_tools.len();
        assert(self@.running.len() == n);
        if n > 0 {
            let title = self.running_tools[n - 1].title.clone();
            assert(self@.running.last().1 == title@);
            self.enter(Phase::Tool { title });
        } else {
            self.enter(Phase::Thinking);
        }
    }

    /// The start of a tool was reported. The title is shown as it is.
    pub fn on_tool_start(&mut self, id: &str, title: &str)
        ensures
            final(self)@ == tool_started(old(self)@, id@, title@),
    {
        self.last_event_ms = self.elapsed_ms;
        let ghost before = self.running_tools@;
        let k: usize = self.running_index(id);
        let tool = Running { id: id.to_owned(), title: title.to_owned() };
        if k < self.running_tools.len() {
            self.running_tools.set(k, tool);
            assert(pairs(self.running_tools@) =~= pairs(before).update(k as int, (id@, title@)));
        } else {
            self.running_tools.push(tool);
            assert(pairs(self.running_tools@) =~= pairs(before).push((id@, title@)));
        }
        self.enter_tool_phase();
    }

    /// The end of a tool was reported.
    pub fn on_tool_done(&mut self, id: &str, succeeded: bool)
        ensures
            final(self)@ == tool_ended(old(self)@, id@, succeeded),
    {
        self.last_event_ms = self.elapsed_ms;
        let ghost all = pairs(self.running_tools@);
        let mut kept: Vec<Running> = Vec::new();
        let mut i: usize = 0;
        assert(all.take(0) =~= Seq::empty());
        assert(pairs(kept@) =~= Seq::empty());
        while i < self.running_tools.len()
            invariant
                i <= self.running_tools@.len(),
                all == pairs(self.running_tools@),
                pairs(kept@) == running_without(all.take(i as int), id@),
                *self == (LiveStatus { last_event_ms: old(self).elapsed_ms, ..*old(self) }),
            decreases self.running_tools.len() - i,
        {
            assert(all.take(i + 1).drop_last() =~= all.take(i as int));
            let tool = &self.running_tools[i];
            assert(all[i as int] == (tool.id@, tool.title@));
            if !same_str(tool.id.as_str(), id) {
                let ghost before = kept@;
                kept.push(Running { id: tool.id.clone(), title: tool.title.clone() });
                assert(pairs(kept@) =~= pairs(before).push(all[i as int]));
            }
            i += 1;
        }
        assert(all.take(all.len() as int) =~= all);
        self.running_tools = kept;
        self.finished_tools.push(succeeded);
        self.enter_tool_phase();
    }

    fn facts(&self) -> (r: Vec<String>)
        ensures
            crate::text::texts(r@) == facts(self@),
    {
        let mut out: Vec<String> = Vec::new();
        assert(crate::text::texts(out@) =~= Seq::empty());
        let done: usize = self.finished_tools.len();
        if done > 0 {
            let mut failed: u64 = 0;
            let mut i: usize = 0;
            assert(self.finished_tools@.take(0) =~= Seq::empty());
            while i < done
                invariant
                    i <= done,
                    done == self.finished_tools@.len(),
                    failed <= i,
                    failed == failures(self.finished_tools@.take(i as int)),
                decreases done - i,
            {
                assert(self.finished_tools@.take(i + 1).drop_last() =~= self.finished_tools@.take(
                    i as int,
                ));
                if !self.finished_tools[i] {
                    failed += 1;
                }
                i += 1;
            }
            assert(self.finished_tools@.take(done as int) =~= self.finished_tools@);
            let mut text = "ツール".to_owned();
            push_decimal(&mut text, done as u64);
            if failed > 0 {
                text.push_str("件（失敗");
                push_decimal(&mut text, failed);
                text.push_str("）");
            } else {
                text.push_str("件");
            }
            let ghost view = text@;
            out.push(text);
            assert(crate::text::texts(out@) =~= seq![view]);
        }
        assert(self@.running.len() == self.running_tools@.len());
        if self.running_tools.len() > 1 {
            let ghost before = out@;
            let mut text = "並行".to_owned();
            push_decimal(&mut text, self.running_tools.len() as u64);
            text.push_str("件");
            let ghost view = text@;
            out.push(text);
            assert(crate::text::texts(out@) =~= crate::text::texts(before).push(view));
        }
        out
    }

    /// The line as shown.
    pub fn render(&self) -> (r: String)
        ensures
            r@ == line(self@),
    {
        let mut out = self.phase.glyph().to_owned();
        out.push_str(" ");
        out.push_str(self.phase.label().as_str());
        out.push_str(" · ");
        out.push_str(format_duration(self.elapsed_ms).as_str());
        let facts = self.facts();
        assert(crate::text::texts(facts@).len() == facts@.len());
        if facts.len() > 0 {
            out.push_str("　");
            out.push_str(join(&facts, " · ").as_str());
        }
        out
    }
}

// ---------------------------------------------------------------------------
// What the line may claim
// ---------------------------------------------------------------------------

/// Every claim is backed: a tool is named exactly while tools run, and it is
/// the last that was started; no tool is counted twice; silence is not nested
/// and never covers a running tool; times lie in the past.
pub open spec fn backed(s: StatusView) -> bool {
    &&& s.phase is Tool <==> s.running.len() > 0
    &&& s.running.len() > 0 ==> s.phase == tool_phase(s.running)
    &&& s.phase is Silent ==> *s.phase->last_known is Accepted || *s.phase->last_known is Thinking
    &&& s.last_event_ms <= s.elapsed_ms
    &&& s.phase_since_ms <= s.elapsed_ms
    &&& forall|i: int, j: int|
        0 <= i < j < s.running.len() ==> (#[trigger] s.running[i]).0 != (#[trigger] s.running[j]).0
}

/// Before anything is heard the line claims nothing about the agent.
pub proof fn lemma_fresh_is_backed(silence_ms: u64)
    ensures
        backed(fresh_status(silence_ms)),
        fresh_status(silence_ms).phase is Accepted,
{
}

/// Time alone never promotes a phase: it stays, or becomes silence that
/// remembers it. Events and counts stay as they are, and the clock does not go
/// back.
pub proof fn lemma_time_never_promotes(s: StatusView, elapsed_ms: u64)
    requires
        backed(s),
    ensures
        backed(ticked(s, elapsed_ms)),
        ticked(s, elapsed_ms).phase == s.phase || ticked(s, elapsed_ms).phase
            == (PhaseView::Silent { last_known: Box::new(s.phase) }),
        ticked(s, elapsed_ms).elapsed_ms >= s.elapsed_ms,
        ticked(s, elapsed_ms).elapsed_ms >= elapsed_ms,
        ticked(s, elapsed_ms).running == s.running,
        ticked(s, elapsed_ms).finished == s.finished,
        ticked(s, elapsed_ms).last_event_ms == s.last_event_ms,
{
}

/// Silence is reported exactly when no tool runs and nothing has been heard for
/// as long as the limit says; and it does not lift itself.
pub proof fn lemma_silence_is_reported(s: StatusView, elapsed_ms: u64)
    requires
        backed(s),
    ensures
        ticked(s, elapsed_ms).phase is Silent <==> s.phase is Silent || (s.running.len() == 0
            && larger(s.elapsed_ms, elapsed_ms) - s.last_event_ms >= s.silence_ms),
{
}

/// A running tool is not silence, however long it runs.
pub proof fn lemma_running_tool_is_not_silence(s: StatusView, elapsed_ms: u64)
    requires
        backed(s),
        s.running.len() > 0,
    ensures
        ticked(s, elapsed_ms).phase == s.phase,
{
}

/// An event lifts silence.
pub proof fn lemma_events_lift_silence(
    s: StatusView,
    id: Seq<char>,
    title: Seq<char>,
    succeeded: bool,
)
    requires
        backed(s),
    ensures
        backed(thought(s)),
        backed(tool_started(s, id, title)),
        backed(tool_ended(s, id, succeeded)),
        !(thought(s).phase is Silent),
        tool_started(s, id, title).phase is Tool,
        !(tool_ended(s, id, succeeded).phase is Silent),
{
    lemma_running_place(s.running, id, 0);
    lemma_running_without(s.running, id);
    let k = running_place(s.running, id, 0);
    let with = running_with(s.running, id, title);
    assert forall|i: int, j: int| 0 <= i < j < with.len() implies (#[trigger] with[i]).0 != (
    #[trigger] with[j]).0 by {
        if j < s.running.len() {
            assert(s.running[i].0 != s.running[j].0);
        }
    }
    let without = running_without(s.running, id);
    assert forall|i: int, j: int| 0 <= i < j < without.len() implies (#[trigger] without[i]).0 != (
    #[trigger] without[j]).0 by {
        lemma_running_without_unique(s.running, id, i, j);
    }
}

pub proof fn lemma_running_place(running: Seq<(Seq<char>, Seq<char>)>, id: Seq<char>, i: int)
    requires
        0 <= i <= running.len(),
    ensures
        i <= running_place(running, id, i) <= running.len(),
        running_place(running, id, i) < running.len() ==> running[running_place(running, id, i)].0
            == id,
        forall|j: int| i <= j < running_place(running, id, i) ==> (#[trigger] running[j]).0 != id,
    decreases running.len() - i,
{
    if i < running.len() && running[i].0 != id {
        lemma_running_place(running, id, i + 1);
    }
}

/// A tool whose end was reported no longer runs; the others do.
pub proof fn lemma_running_without(running: Seq<(Seq<char>, Seq<char>)>, id: Seq<char>)
    ensures
        forall|i: int|
            0 <= i < running_without(running, id).len() ==> (#[trigger] running_without(
                running,
                id,
            )[i]).0 != id && running.contains(running_without(running, id)[i]),
        forall|i: int|
            0 <= i < running.len() && (#[trigger] running[i]).0 != id ==> running_without(
                running,
                id,
            ).contains(running[i]),
    decreases running.len(),
{
    if running.len() > 0 {
        let front = running_without(running.drop_last(), id);
        let all = running_without(running, id);
        lemma_running_without(running.drop_last(), id);
        assert forall|i: int| 0 <= i < all.len() implies (#[trigger] all[i]).0 != id
            && running.contains(all[i]) by {
            if i < front.len() {
                assert(all[i] == front[i]);
                assert(running.drop_last().contains(front[i]));
                let k = choose|k: int|
                    0 <= k < running.drop_last().len() && running.drop_last()[k] == front[i];
                assert(running[k] == all[i]);
            } else {
                assert(running[running.len() - 1] == all[i]);
            }
        }
        assert forall|i: int| 0 <= i < running.len() && (#[trigger] running[i]).0
            != id implies all.contains(running[i]) by {
            if i < running.len() - 1 {
                assert(running.drop_last()[i] == running[i]);
                assert(front.contains(running[i]));
                let k = choose|k: int| 0 <= k < front.len() && front[k] == running[i];
                assert(all[k] == running[i]);
            } else {
                assert(all[all.len() - 1] == running[i]);
            }
        }
    }
}

proof fn lemma_running_without_unique(
    running: Seq<(Seq<char>, Seq<char>)>,
    id: Seq<char>,
    i: int,
    j: int,
)
    requires
        forall|i: int, j: int|
            0 <= i < j < running.len() ==> (#[trigger] running[i]).0 != (#[trigger] running[j]).0,
        0 <= i < j < running_without(running, id).len(),
    ensures
        running_without(running, id)[i].0 != running_without(running, id)[j].0,
    decreases running.len(),
{
    let shorter = running.drop_last();
    let front = running_without(shorter, id);
    let all = running_without(running, id);
    assert forall|a: int, b: int| 0 <= a < b < shorter.len() implies (#[trigger] shorter[a]).0 != (
    #[trigger] shorter[b]).0 by {
        assert(running[a].0 != running[b].0);
    }
    if j < front.len() {
        lemma_running_without_unique(shorter, id, i, j);
    } else {
        lemma_running_without(shorter, id);
        assert(all[i] == front[i]);
        assert(shorter.contains(front[i]));
        let k = choose|k: int| 0 <= k < shorter.len() && shorter[k] == front[i];
        assert(running[k].0 != running[running.len() - 1].0);
    }
}

/// Failures are not hidden: the line counts each.
pub proof fn lemma_failures_are_counted(s: StatusView, id: Seq<char>)
    ensures
        failures(tool_ended(s, id, false).finished) == failures(s.finished) + 1,
        failures(tool_ended(s, id, true).finished) == failures(s.finished),
{
    assert(s.finished.push(false).drop_last() =~= s.finished);
    assert(s.finished.push(true).drop_last() =~= s.finished);
}

// ---------------------------------------------------------------------------
// Driving the line
// ---------------------------------------------------------------------------

/// Marks every status line: a zero-width space, which is not seen.
pub const MARKER: &'static str = "\u{200b}";

/// True when `display` is a status line rather than an agent's output.
pub fn is_status_line(display: &str) -> (r: bool)
    ensures
        r == crate::text::begins(display@, MARKER@),
{
    let cs = chars_of(display);
    begins_with(cs.as_slice(), MARKER)
}

/// A line with its mark.
fn marked(line: &str) -> (r: String)
    ensures
        r@ == MARKER@ + line@,
{
    let mut out = MARKER.to_owned();
    out.push_str(line);
    out
}

/// What the receiver of an agent's reports tells: only what the agent told.
#[derive(Debug, PartialEq, Eq)]
pub enum StatusEvent {
    Thinking,
    /// The answer has started to arrive; the message now belongs to it.
    TextStarted,
    ToolStart { id: String, title: String },
    ToolDone { id: String, succeeded: bool },
}

/// Where events are reported to.
#[derive(Debug)]
pub struct LiveStatusHandle {
    connected: bool,
    handed_over: bool,
}

impl LiveStatusHandle {
    /// There is a driver that takes events.
    pub closed spec fn connected(&self) -> bool {
        self.connected
    }

    /// The message belongs to the answer.
    pub closed spec fn handed_over(&self) -> bool {
        self.handed_over
    }

    /// A handle that reports nothing, for turns that do not stream.
    pub fn disabled() -> (r: Self)
        ensures
            !r.connected(),
            r.handed_over(),
    {
        LiveStatusHandle { connected: false, handed_over: true }
    }

    /// A handle that reports to a driver.
    pub fn connect() -> (r: Self)
        ensures
            r.connected(),
            !r.handed_over(),
    {
        LiveStatusHandle { connected: true, handed_over: false }
    }

    /// Whether the message belongs to the answer.
    pub fn is_handed_over(&self) -> (r: bool)
        ensures
            r == self.handed_over(),
    {
        self.handed_over
    }

    /// Reports an event: what is to be passed on to the driver. A text hands the
    /// message over at once, before the driver hears of it.
    pub fn send(&mut self, event: StatusEvent) -> (r: Option<StatusEvent>)
        ensures
            final(self).connected() == old(self).connected(),
            final(self).handed_over() == (old(self).handed_over() || event is TextStarted),
            r == if old(self).connected() {
                Some(event)
            } else {
                None
            },
            final(self).handed_over() == handed_over_after(old(self).handed_over(), event),
    {
        if let StatusEvent::TextStarted = event {
            self.handed_over = true;
        }
        if self.connected {
            Some(event)
        } else {
            None
        }
    }
}

/// The first thing that the streaming message shows.
pub fn initial_line(silence_after: Duration) -> (r: String)
    ensures
        r@ == MARKER@ + line(fresh_status(millis64(silence_after))),
{
    marked(LiveStatus::new(silence_after).render().as_str())
}

/// What wakes the driver.
#[derive(Debug, PartialEq, Eq)]
pub enum DriverInput {
    Reported { event: StatusEvent },
    /// The turn ended.
    Closed,
    /// Nothing was reported for one interval.
    Timer,
}

/// The status after what was reported; nothing if the driver is done.
pub open spec fn heard(s: StatusView, input: DriverInput) -> Option<StatusView> {
    match input {
        DriverInput::Reported { event } => match event {
            StatusEvent::Thinking => Some(thought(s)),
            StatusEvent::TextStarted => None,
            StatusEvent::ToolStart { id, title } => Some(tool_started(s, id@, title@)),
            StatusEvent::ToolDone { id, succeeded } => Some(tool_ended(s, id@, succeeded)),
        },
        DriverInput::Closed => None,
        DriverInput::Timer => Some(s),
    }
}

/// The status after the driver was woken; nothing if the message is no longer
/// the driver's.
pub open spec fn driven(s: StatusView, input: DriverInput, handed_over: bool, elapsed: Duration) -> Option<
    StatusView,
> {
    match heard(s, input) {
        Some(t) if !handed_over => Some(ticked(t, millis64(elapsed))),
        _ => None,
    }
}

impl LiveStatus {
    /// Takes in what woke the driver; the line to show, or nothing when the
    /// driver is to stop.
    pub fn drive(&mut self, input: DriverInput, handed_over: bool, elapsed: Duration) -> (r: Option<
        String,
    >)
        ensures
            match driven(old(self)@, input, handed_over, elapsed) {
                Some(s) => final(self)@ == s && r is Some && r->0@ == MARKER@ + line(s),
                None => r is None && final(self)@ == match heard(old(self)@, input) {
                    Some(t) => t,
                    None => old(self)@,
                },
            },
    {
        match input {
            DriverInput::Reported { event } => match event {
                StatusEvent::Thinking => self.on_thinking(),
                StatusEvent::TextStarted => {
                    return None;
                },
                StatusEvent::ToolStart { id, title } => self.on_tool_start(
                    id.as_str(),
                    title.as_str(),
                ),
                StatusEvent::ToolDone { id, succeeded } => self.on_tool_done(
                    id.as_str(),
                    succeeded,
                ),
            },
            DriverInput::Closed => {
                return None;
            },
            DriverInput::Timer => {},
        }
        if handed_over {
            return None;
        }
        self.tick(elapsed);
        Some(marked(self.render().as_str()))
    }
}

/// Once the message is handed over, the driver writes nothing more to it.
pub proof fn lemma_answer_is_not_overwritten(s: StatusView, input: DriverInput, elapsed: Duration)
    ensures
        driven(s, input, true, elapsed) is None,
{
}

/// Whatever the driver shows is a status line, and backed.
pub proof fn lemma_driver_shows_backed_lines(
    s: StatusView,
    input: DriverInput,
    handed_over: bool,
    elapsed: Duration,
)
    requires
        backed(s),
    ensures
        match driven(s, input, handed_over, elapsed) {
            Some(t) => backed(t) && crate::text::begins(MARKER@ + line(t), MARKER@),
            None => true,
        },
{
    let ms = millis64(elapsed);
    match input {
        DriverInput::Reported { event } => match event {
            StatusEvent::Thinking => {
                lemma_events_lift_silence(s, Seq::empty(), Seq::empty(), true);
                lemma_time_never_promotes(thought(s), ms);
            },
            StatusEvent::TextStarted => {},
            StatusEvent::ToolStart { id, title } => {
                lemma_events_lift_silence(s, id@, title@, true);
                lemma_time_never_promotes(tool_started(s, id@, title@), ms);
            },
            StatusEvent::ToolDone { id, succeeded } => {
                lemma_events_lift_silence(s, id@, Seq::empty(), succeeded);
                lemma_time_never_promotes(tool_ended(s, id@, succeeded), ms);
            },
        },
        DriverInput::Closed => {},
        DriverInput::Timer => {
            lemma_time_never_promotes(s, ms);
        },
    }
    if let Some(t) = driven(s, input, handed_over, elapsed) {
        let shown = MARKER@ + line(t);
        assert(shown.subrange(0, MARKER@.len() as int) =~= MARKER@);
    }
}

// ---------------------------------------------------------------------------
// What the line says
// ---------------------------------------------------------------------------

/// The time in the line: whole seconds, or minutes and the seconds above them.
pub proof fn lemma_how_time_is_shown(ms: u64)
    ensures
        ms < 60_000 ==> duration_text(ms) == crate::text::decimal((ms / 1000) as nat) + "秒"@,
        ms >= 60_000 ==> duration_text(ms) == crate::text::decimal((ms / 60_000) as nat) + "分"@
            + crate::text::decimal(((ms / 1000) % 60) as nat) + "秒"@,
{
    assert(ms / 60_000 == (ms / 1000) / 60) by (nonlinear_arith);
}

/// The line names the phase that is known: it says that the request was
/// received, that the agent thinks, or which tool runs, by its whole title; of
/// silence it says so, with what was known before. The time and the counts
/// follow.
pub proof fn lemma_line_says_what_is_known(s: StatusView)
    ensures
        ({
            let time = " · "@ + duration_text(s.elapsed_ms);
            let counts = if facts(s).len() > 0 {
                "　"@ + crate::text::joined(facts(s), " · "@)
            } else {
                Seq::empty()
            };
            &&& s.phase is Accepted ==> line(s) == "⏳ 受け取りました"@ + time + counts
            &&& s.phase is Thinking ==> line(s) == "🤔 考えています"@ + time + counts
            &&& s.phase is Tool ==> line(s) == "🔧 実行中: "@ + s.phase->title + time + counts
            &&& s.phase == (PhaseView::Silent { last_known: Box::new(PhaseView::Accepted) })
                ==> line(s) == "… 応答がまだありません"@ + time + counts
            &&& s.phase == (PhaseView::Silent { last_known: Box::new(PhaseView::Thinking) })
                ==> line(s) == "… 反応がありません（直前: 考えています）"@ + time + counts
        }),
{
    reveal_strlit("⏳");
    reveal_strlit("🤔");
    reveal_strlit("🔧");
    reveal_strlit("…");
    reveal_strlit(" ");
    reveal_strlit("受け取りました");
    reveal_strlit("考えています");
    reveal_strlit("実行中: ");
    reveal_strlit("応答がまだありません");
    reveal_strlit("反応がありません（直前: ");
    reveal_strlit("）");
    reveal_strlit("⏳ 受け取りました");
    reveal_strlit("🤔 考えています");
    reveal_strlit("🔧 実行中: ");
    reveal_strlit("… 応答がまだありません");
    reveal_strlit("… 反応がありません（直前: 考えています）");
    reveal_with_fuel(label, 3);
    let head = glyph(s.phase) + " "@ + label(s.phase);
    let time = " · "@ + duration_text(s.elapsed_ms);
    let counts = if facts(s).len() > 0 {
        "　"@ + crate::text::joined(facts(s), " · "@)
    } else {
        Seq::empty()
    };
    assert(line(s) =~= head + time + counts);
    if s.phase is Accepted {
        assert(head =~= "⏳ 受け取りました"@);
    }
    if s.phase is Thinking {
        assert(head =~= "🤔 考えています"@);
    }
    if s.phase is Tool {
        assert(head =~= "🔧 実行中: "@ + s.phase->title);
    }
    if s.phase == (PhaseView::Silent { last_known: Box::new(PhaseView::Accepted) }) {
        assert(head =~= "… 応答がまだありません"@);
    }
    if s.phase == (PhaseView::Silent { last_known: Box::new(PhaseView::Thinking) }) {
        assert(head =~= "… 反応がありません（直前: 考えています）"@);
    }
}

proof fn lemma_failures_is_filter(finished: Seq<bool>)
    ensures
        failures(finished) == finished.filter(|ok: bool| !ok).len(),
    decreases finished.len(),
{
    reveal(Seq::filter);
    if finished.len() > 0 {
        lemma_failures_is_filter(finished.drop_last());
    }
}

/// The line counts the tools that ended, tells how many of them failed if any
/// did, and how many run at once if more than one does.
pub proof fn lemma_line_counts_tools(s: StatusView)
    ensures
        ({
            let done = s.finished.len();
            let failed = s.finished.filter(|ok: bool| !ok).len();
            let ended = "ツール"@ + crate::text::decimal(done) + "件"@;
            let with_failures = "ツール"@ + crate::text::decimal(done) + "件（失敗"@
                + crate::text::decimal(failed) + "）"@;
            let at_once = "並行"@ + crate::text::decimal(s.running.len()) + "件"@;
            &&& done == 0 && s.running.len() <= 1 ==> facts(s).len() == 0
            &&& done == 0 && s.running.len() > 1 ==> facts(s) == seq![at_once]
            &&& done > 0 && failed == 0 && s.running.len() <= 1 ==> facts(s) == seq![ended]
            &&& done > 0 && failed > 0 && s.running.len() <= 1 ==> facts(s) == seq![with_failures]
            &&& done > 0 && failed == 0 && s.running.len() > 1 ==> facts(s) == seq![ended, at_once]
            &&& done > 0 && failed > 0 && s.running.len() > 1 ==> facts(s) == seq![
                with_failures,
                at_once,
            ]
        }),
{
    lemma_failures_is_filter(s.finished);
    let done = s.finished.len();
    let failed = failures(s.finished);
    let ended = "ツール"@ + crate::text::decimal(done) + "件"@;
    let with_failures = "ツール"@ + crate::text::decimal(done) + "件（失敗"@ + crate::text::decimal(
        failed,
    ) + "）"@;
    let at_once = "並行"@ + crate::text::decimal(s.running.len()) + "件"@;
    if done == 0 && s.running.len() > 1 {
        assert(facts(s) =~= seq![at_once]);
    }
    if done > 0 && s.running.len() > 1 {
        if failed == 0 {
            assert(facts(s) =~= seq![ended, at_once]);
        } else {
            assert(facts(s) =~= seq![with_failures, at_once]);
        }
    }
}

/// What each event does: it counts as heard now. Thinking is believed where no
/// tool runs. A tool that starts runs last, or keeps its place under a new
/// title; one that ends no longer runs and is counted. While tools run the last
/// of them is named; when the last has ended, the agent is taken to think.
pub proof fn lemma_what_events_do(
    s: StatusView,
    id: Seq<char>,
    title: Seq<char>,
    succeeded: bool,
)
    requires
        backed(s),
    ensures
        thought(s).last_event_ms == s.elapsed_ms,
        thought(s).phase == if s.running.len() == 0 {
            PhaseView::Thinking
        } else {
            s.phase
        },
        thought(s).running == s.running && thought(s).finished == s.finished,
        tool_started(s, id, title).last_event_ms == s.elapsed_ms,
        tool_started(s, id, title).finished == s.finished,
        (forall|i: int| 0 <= i < s.running.len() ==> (#[trigger] s.running[i]).0 != id) ==> {
            &&& tool_started(s, id, title).running == s.running.push((id, title))
            &&& tool_started(s, id, title).phase == (PhaseView::Tool { title })
        },
        forall|k: int|
            0 <= k < s.running.len() && (#[trigger] s.running[k]).0 == id ==> tool_started(
                s,
                id,
                title,
            ).running == s.running.update(k, (id, title)),
        tool_ended(s, id, succeeded).last_event_ms == s.elapsed_ms,
        tool_ended(s, id, succeeded).finished == s.finished.push(succeeded),
        tool_ended(s, id, succeeded).running == s.running.filter(
            |p: (Seq<char>, Seq<char>)| p.0 != id,
        ),
        ({
            let left = s.running.filter(|p: (Seq<char>, Seq<char>)| p.0 != id);
            tool_ended(s, id, succeeded).phase == if left.len() == 0 {
                PhaseView::Thinking
            } else {
                PhaseView::Tool { title: left.last().1 }
            }
        }),
{
    lemma_running_place(s.running, id, 0);
    let p = running_place(s.running, id, 0);
    assert forall|k: int|
        0 <= k < s.running.len() && (#[trigger] s.running[k]).0 == id implies tool_started(
        s,
        id,
        title,
    ).running == s.running.update(k, (id, title)) by {
        if p < k {
            assert(s.running[p].0 != s.running[k].0);
        } else if k < p {
            assert(s.running[k].0 != id);
        }
    }
    lemma_without_is_filter(s.running, id);
}

proof fn lemma_without_is_filter(running: Seq<(Seq<char>, Seq<char>)>, id: Seq<char>)
    ensures
        running_without(running, id) == running.filter(|p: (Seq<char>, Seq<char>)| p.0 != id),
    decreases running.len(),
{
    reveal(Seq::filter);
    if running.len() > 0 {
        lemma_without_is_filter(running.drop_last(), id);
    } else {
        assert(running =~= Seq::empty());
    }
}

/// The time of a phase starts when another phase begins, and only then.
pub proof fn lemma_phase_time_starts_with_the_phase(s: StatusView, phase: PhaseView)
    ensures
        entered(s, phase).phase == phase,
        entered(s, phase).phase_since_ms == if s.phase == phase {
            s.phase_since_ms
        } else {
            s.elapsed_ms
        },
        entered(s, phase).elapsed_ms == s.elapsed_ms,
        entered(s, phase).running == s.running,
        entered(s, phase).finished == s.finished,
{
}

/// The driver goes on until the answer starts or the turn ends; until then it
/// shows what it has heard, with the time.
pub proof fn lemma_driver_goes_on(s: StatusView, event: StatusEvent, elapsed: Duration)
    ensures
        driven(s, DriverInput::Timer, false, elapsed) == Some(ticked(s, millis64(elapsed))),
        driven(s, DriverInput::Closed, false, elapsed) is None,
        driven(s, DriverInput::Reported { event }, false, elapsed) is None <==> event
            is TextStarted,
        match event {
            StatusEvent::Thinking => driven(s, DriverInput::Reported { event }, false, elapsed)
                == Some(ticked(thought(s), millis64(elapsed))),
            StatusEvent::TextStarted => true,
            StatusEvent::ToolStart { id, title } => driven(
                s,
                DriverInput::Reported { event },
                false,
                elapsed,
            ) == Some(ticked(tool_started(s, id@, title@), millis64(elapsed))),
            StatusEvent::ToolDone { id, succeeded } => driven(
                s,
                DriverInput::Reported { event },
                false,
                elapsed,
            ) == Some(ticked(tool_ended(s, id@, succeeded), millis64(elapsed))),
        },
        elapsed.in_millis() < 0x1_0000_0000_0000_0000 ==> millis64(elapsed) == elapsed.in_millis(),
{
}

/// The message belongs to the answer after an event.
pub open spec fn handed_over_after(handed_over: bool, event: StatusEvent) -> bool {
    handed_over || event is TextStarted
}

/// The first text hands the message over, nothing else does, and nothing takes
/// it back.
pub proof fn lemma_text_hands_over(event: StatusEvent)
    ensures
        handed_over_after(false, StatusEvent::TextStarted),
        handed_over_after(true, event),
        handed_over_after(false, event) ==> event is TextStarted,
{
}

/// The clock shows the latest time that it was told.
pub proof fn lemma_clock_shows_the_latest_time(s: StatusView, elapsed_ms: u64)
    ensures
        elapsed_ms >= s.elapsed_ms ==> ticked(s, elapsed_ms).elapsed_ms == elapsed_ms,
        elapsed_ms <= s.elapsed_ms ==> ticked(s, elapsed_ms).elapsed_ms == s.elapsed_ms,
{
}

} // verus!
