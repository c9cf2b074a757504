//! One turn of an agent: from the prompt to the text that is delivered.

use vstd::prelude::*;
use vstd::hash_set::StringHashSet;

use crate::acp::AcpEvent;
use crate::attachments::{Loaded, OutboundAttachments, Requested};
use crate::config::ToolDisplay;
use crate::directives::{parse_output_directives, OutputDirectives};
use crate::display::{compose_display, sanitize_title, ToolEntry, ToolState};
use crate::format::split_message;
use crate::stream::append_text_chunk;
use crate::text::{join, push_decimal, same_str};
use crate::time::Duration;

verus! {

broadcast use vstd::seq_lib::group_seq_properties;

/// Shown before the first text of a session that was lost.
pub const SESSION_EXPIRED: &'static str = "⚠️ _Session expired, starting fresh..._\n\n";

/// Shown until the first text arrives.
pub const PLACEHOLDER: &'static str = "…";

/// Shown where a turn brought nothing.
pub const NO_RESPONSE: &'static str = "_(no response)_";

/// How long a streaming edit waits for more, in milliseconds.
pub const EDIT_INTERVAL_MS: u64 = 1500;

/// What arrives in the course of a turn.
#[derive(Debug, PartialEq, Eq)]
pub enum TurnInput {
    /// Something the agent reports.
    Event { event: AcpEvent },
    /// The response to a request, with its error.
    Response { id: u64, error: Option<String> },
    /// Nothing arrived for one liveness interval.
    Tick { alive: bool, elapsed: Duration },
    /// The agent's output ended.
    Closed,
}

/// What is to be done in the course of a turn.
#[derive(Debug, PartialEq, Eq)]
pub enum TurnStep {
    /// React as thinking.
    SetThinking,
    /// React as using the tool with this title.
    SetTool { title: String },
    /// Show this while streaming.
    Show { content: String },
    /// Take over the configuration that the agent reported.
    AdoptConfig,
    /// Give the request up, so that a late response is not taken for another's.
    Abandon,
}

pub enum StepView {
    SetThinking,
    SetTool { title: Seq<char> },
    Show { content: Seq<char> },
    AdoptConfig,
    Abandon,
}

impl View for TurnStep {
    type V = StepView;

    open spec fn view(&self) -> StepView {
        match self {
            TurnStep::SetThinking => StepView::SetThinking,
            TurnStep::SetTool { title } => StepView::SetTool { title: title@ },
            TurnStep::Show { content } => StepView::Show { content: content@ },
            TurnStep::AdoptConfig => StepView::AdoptConfig,
            TurnStep::Abandon => StepView::Abandon,
        }
    }
}

pub open spec fn step_views(steps: Seq<TurnStep>) -> Seq<StepView> {
    steps.map_values(|s: TurnStep| s@)
}

// ---------------------------------------------------------------------------
// Tools
// ---------------------------------------------------------------------------

/// Where a tool call stands from `i` on; the number of tools if it does not.
pub open spec fn tool_place(tools: Seq<crate::display::ToolView>, id: Seq<char>, i: int) -> int
    decreases tools.len() - i,
{
    if i >= tools.len() {
        tools.len() as int
    } else if tools[i].id == id {
        i
    } else {
        tool_place(tools, id, i + 1)
    }
}

pub proof fn lemma_tool_place(tools: Seq<crate::display::ToolView>, id: Seq<char>, i: int)
    requires
        0 <= i <= tools.len(),
    ensures
        i <= tool_place(tools, id, i) <= tools.len(),
        tool_place(tools, id, i) < tools.len() ==> tools[tool_place(tools, id, i)].id == id,
        forall|j: int| i <= j < tool_place(tools, id, i) ==> (#[trigger] tools[j]).id != id,
    decreases tools.len() - i,
{
    if i < tools.len() && tools[i].id != id {
        lemma_tool_place(tools, id, i + 1);
    }
}

/// The tools after one was started: a known one runs again, under its new
/// title; another is added.
pub open spec fn tool_started(
    tools: Seq<crate::display::ToolView>,
    id: Seq<char>,
    title: Seq<char>,
) -> Seq<crate::display::ToolView> {
    let entry = crate::display::ToolView {
        id,
        title: crate::display::flat_title(title),
        state: ToolState::Running,
    };
    let k = tool_place(tools, id, 0);
    if title.len() == 0 {
        tools
    } else if k < tools.len() {
        tools.update(k, entry)
    } else {
        tools.push(entry)
    }
}

/// The state that a finished tool call reports.
pub open spec fn end_state(status: Seq<char>) -> ToolState {
    if status == "completed"@ {
        ToolState::Completed
    } else {
        ToolState::Failed
    }
}

/// The tools after one was finished: a known one keeps its title if it brings
/// no other; an unknown one is added if it has a title.
pub open spec fn tool_finished(
    tools: Seq<crate::display::ToolView>,
    id: Seq<char>,
    title: Seq<char>,
    status: Seq<char>,
) -> Seq<crate::display::ToolView> {
    let k = tool_place(tools, id, 0);
    if k < tools.len() {
        tools.update(
            k,
            crate::display::ToolView {
                id,
                title: if title.len() == 0 {
                    tools[k].title
                } else {
                    crate::display::flat_title(title)
                },
                state: end_state(status),
            },
        )
    } else if title.len() > 0 {
        tools.push(
            crate::display::ToolView {
                id,
                title: crate::display::flat_title(title),
                state: end_state(status),
            },
        )
    } else {
        tools
    }
}

fn tool_index(tools: &Vec<ToolEntry>, id: &str) -> (r: usize)
    ensures
        r == tool_place(crate::display::tool_views(tools@), id@, 0),
{
    let ghost views = crate::display::tool_views(tools@);
    let mut i: usize = 0;
    while i < tools.len()
        invariant
            i <= tools.len(),
            views == crate::display::tool_views(tools@),
            tool_place(views, id@, 0) == tool_place(views, id@, i as int),
        decreases tools.len() - i,
    {
        assert(views[i as int] == tools@[i as int]@);
        if same_str(tools[i].id.as_str(), id) {
            return i;
        }
        i += 1;
    }
    i
}

fn start_tool(tools: &mut Vec<ToolEntry>, id: String, title: &str)
    ensures
        crate::display::tool_views(final(tools)@) == tool_started(
            crate::display::tool_views(old(tools)@),
            id@,
            title@,
        ),
{
    let ghost before = tools@;
    proof {
        lemma_tool_place(crate::display::tool_views(before), id@, 0);
    }
    if title.is_empty() {
        return;
    }
    let k: usize = tool_index(tools, id.as_str());
    let entry = ToolEntry { id, title: sanitize_title(title), state: ToolState::Running };
    let ghost view = entry@;
    if k < tools.len() {
        tools.set(k, entry);
        assert(crate::display::tool_views(tools@) =~= crate::display::tool_views(before).update(
            k as int,
            view,
        ));
    } else {
        tools.push(entry);
        assert(crate::display::tool_views(tools@) =~= crate::display::tool_views(before).push(view));
    }
}

fn finish_tool(tools: &mut Vec<ToolEntry>, id: String, title: &str, status: &str)
    ensures
        crate::display::tool_views(final(tools)@) == tool_finished(
            crate::display::tool_views(old(tools)@),
            id@,
            title@,
            status@,
        ),
{
    let ghost before = tools@;
    proof {
        lemma_tool_place(crate::display::tool_views(before), id@, 0);
    }
    let state = if same_str(status, "completed") {
        ToolState::Completed
    } else {
        ToolState::Failed
    };
    let k: usize = tool_index(tools, id.as_str());
    if k < tools.len() {
        let title = if title.is_empty() {
            tools[k].title.clone()
        } else {
            sanitize_title(title)
        };
        let entry = ToolEntry { id, title, state };
        let ghost view = entry@;
        tools.set(k, entry);
        assert(crate::display::tool_views(tools@) =~= crate::display::tool_views(before).update(
            k as int,
            view,
        ));
    } else if !title.is_empty() {
        let entry = ToolEntry { id, title: sanitize_title(title), state };
        let ghost view = entry@;
        tools.push(entry);
        assert(crate::display::tool_views(tools@) =~= crate::display::tool_views(before).push(view));
    }
}

// ---------------------------------------------------------------------------
// Steers
// ---------------------------------------------------------------------------

/// The sessions whose next text starts a new section, because the agent
/// accepted a steer in the middle of a turn.
pub struct SteerSeparators {
    pending: StringHashSet,
}

impl SteerSeparators {
    pub closed spec fn pending(&self) -> Set<Seq<char>> {
        self.pending@
    }

    pub fn new() -> (r: Self)
        ensures
            r.pending() == Set::<Seq<char>>::empty(),
    {
        SteerSeparators { pending: StringHashSet::new() }
    }

    /// Marks a session before a steer is handed to it.
    pub fn mark(&mut self, thread_key: &str)
        ensures
            final(self).pending() == old(self).pending().insert(thread_key@),
    {
        self.pending.insert(thread_key.to_owned());
    }

    /// Whether a session was marked; it no longer is. Also takes the mark back
    /// when a steer was refused.
    pub fn take(&mut self, thread_key: &str) -> (r: bool)
        ensures
            r == old(self).pending().contains(thread_key@),
            final(self).pending() == old(self).pending().remove(thread_key@),
    {
        self.pending.remove(thread_key)
    }
}

// ---------------------------------------------------------------------------
// The turn
// ---------------------------------------------------------------------------

/// A running turn.
#[derive(Debug)]
pub struct Turn {
    request_id: u64,
    hard_timeout: Duration,
    streaming: bool,
    tool_display: ToolDisplay,
    text: String,
    tools: Vec<ToolEntry>,
    error: Option<String>,
    over: bool,
}

impl Turn {
    pub closed spec fn request_id(&self) -> u64 {
        self.request_id
    }

    pub closed spec fn hard_timeout(&self) -> Duration {
        self.hard_timeout
    }

    pub closed spec fn streaming(&self) -> bool {
        self.streaming
    }

    pub closed spec fn tool_display(&self) -> ToolDisplay {
        self.tool_display
    }

    /// The text so far.
    pub closed spec fn text(&self) -> Seq<char> {
        self.text@
    }

    /// The tools so far, in the order in which they came first.
    pub closed spec fn tools(&self) -> Seq<ToolEntry> {
        self.tools@
    }

    pub closed spec fn error(&self) -> Option<Seq<char>> {
        crate::text::opt_text(self.error)
    }

    pub closed spec fn over(&self) -> bool {
        self.over
    }

    /// What does not change in the course of a turn.
    pub open spec fn same_request(&self, other: &Self) -> bool {
        &&& self.request_id() == other.request_id()
        &&& self.hard_timeout() == other.hard_timeout()
        &&& self.streaming() == other.streaming()
        &&& self.tool_display() == other.tool_display()
    }

    /// Nothing changed.
    pub open spec fn same_turn(&self, other: &Self) -> bool {
        &&& self.same_request(other)
        &&& self.text() == other.text()
        &&& crate::display::tool_views(self.tools()) == crate::display::tool_views(other.tools())
        &&& self.error() == other.error()
        &&& self.over() == other.over()
    }

    /// A turn that has just begun. One of a lost session says so first.
    pub fn begin(
        request_id: u64,
        hard_timeout: Duration,
        streaming: bool,
        tool_display: ToolDisplay,
        reset: bool,
    ) -> (r: Self)
        ensures
            r.request_id() == request_id,
            r.hard_timeout() == hard_timeout,
            r.streaming() == streaming,
            r.tool_display() == tool_display,
            r.text() == if reset {
                SESSION_EXPIRED@
            } else {
                Seq::empty()
            },
            r.tools().len() == 0,
            r.error() is None,
            !r.over(),
            r.text() == first_text(reset),
    {
        let text = if reset {
            SESSION_EXPIRED.to_owned()
        } else {
            String::new()
        };
        Turn {
            request_id,
            hard_timeout,
            streaming,
            tool_display,
            text,
            tools: Vec::new(),
            error: None,
            over: false,
        }
    }

    /// The turn takes no more input.
    pub fn is_over(&self) -> (r: bool)
        ensures
            r == self.over(),
    {
        self.over
    }

    /// What is shown of the turn while it streams.
    pub open spec fn shown(&self) -> Seq<char> {
        crate::display::composed(self.tools(), self.text(), true, self.tool_display())
    }

    /// What is to be done to show the turn.
    pub open spec fn show_steps(&self) -> Seq<StepView> {
        if self.streaming() {
            seq![StepView::Show { content: self.shown() }]
        } else {
            Seq::empty()
        }
    }

    /// What an event does to the turn.
    pub open spec fn after_event(&self, post: &Self, event: AcpEvent, separate: bool) -> bool {
        let tools = crate::display::tool_views(self.tools());
        &&& self.same_request(post)
        &&& post.error() == self.error()
        &&& post.over() == self.over()
        &&& post.text() == match event {
            AcpEvent::Text(t) => crate::stream::appended(self.text(), t@, separate),
            _ => self.text(),
        }
        &&& crate::display::tool_views(post.tools()) == match event {
            AcpEvent::ToolStart { id, title } => tool_started(tools, id@, title@),
            AcpEvent::ToolDone { id, title, status } => tool_finished(
                tools,
                id@,
                title@,
                status@,
            ),
            _ => tools,
        }
    }

    /// What is to be done after an event.
    pub open spec fn event_steps(&self, event: AcpEvent) -> Seq<StepView> {
        match event {
            AcpEvent::Text(_) => self.show_steps(),
            AcpEvent::Thinking => seq![StepView::SetThinking],
            AcpEvent::ToolStart { id, title } => if title@.len() == 0 {
                Seq::empty()
            } else {
                seq![StepView::SetTool { title: title@ }] + self.show_steps()
            },
            AcpEvent::ToolDone { id, title, status } => seq![StepView::SetThinking]
                + self.show_steps(),
            AcpEvent::ConfigUpdate => seq![StepView::AdoptConfig],
            AcpEvent::Other => Seq::empty(),
        }
    }

    fn push_show(&self, steps: &mut Vec<TurnStep>)
        ensures
            step_views(final(steps)@) == step_views(old(steps)@) + self.show_steps(),
    {
        let ghost before = steps@;
        if self.streaming {
            let content = compose_display(
                self.tools.as_slice(),
                self.text.as_str(),
                true,
                self.tool_display,
            );
            let step = TurnStep::Show { content };
            let ghost view = step@;
            steps.push(step);
            assert(step_views(steps@) =~= step_views(before).push(view));
            assert(step_views(before).push(view) =~= step_views(before) + seq![view]);
        } else {
            assert(step_views(before) + Seq::empty() =~= step_views(before));
        }
    }

    /// Takes in what the agent reports. `separate` says that a text starts a
    /// new section.
    pub fn on_event(&mut self, event: AcpEvent, separate: bool) -> (r: Vec<TurnStep>)
        ensures
            old(self).after_event(final(self), event, separate),
            step_views(r@) == final(self).event_steps(event),
    {
        let mut steps: Vec<TurnStep> = Vec::new();
        assert(step_views(steps@) =~= Seq::empty());
        match event {
            AcpEvent::Text(t) => {
                append_text_chunk(&mut self.text, t.as_str(), separate);
                self.push_show(&mut steps);
                assert(Seq::<StepView>::empty() + self.show_steps() =~= self.show_steps());
            },
            AcpEvent::Thinking => {
                steps.push(TurnStep::SetThinking);
                assert(step_views(steps@) =~= seq![StepView::SetThinking]);
            },
            AcpEvent::ToolStart { id, title } => {
                let named = !title.as_str().is_empty();
                start_tool(&mut self.tools, id, title.as_str());
                if named {
                    steps.push(TurnStep::SetTool { title });
                    assert(step_views(steps@) =~= seq![StepView::SetTool { title: title@ }]);
                    self.push_show(&mut steps);
                }
            },
            AcpEvent::ToolDone { id, title, status } => {
                steps.push(TurnStep::SetThinking);
                assert(step_views(steps@) =~= seq![StepView::SetThinking]);
                finish_tool(&mut self.tools, id, title.as_str(), status.as_str());
                self.push_show(&mut steps);
            },
            AcpEvent::ConfigUpdate => {
                steps.push(TurnStep::AdoptConfig);
                assert(step_views(steps@) =~= seq![StepView::AdoptConfig]);
            },
            AcpEvent::Other => {},
        }
        steps
    }

    /// What anything that arrives does to the turn. `separate` says that a text
    /// starts a new section.
    pub open spec fn after(&self, post: &Self, input: TurnInput, separate: bool) -> bool {
        match input {
            TurnInput::Event { event } => self.after_event(post, event, separate),
            TurnInput::Response { id, error } => if id != self.request_id() {
                self.same_turn(post)
            } else {
                self.ended(
                    post,
                    if error is Some {
                        crate::text::opt_text(error)
                    } else {
                        self.error()
                    },
                )
            },
            TurnInput::Tick { alive, elapsed } => match tick_error(
                alive,
                elapsed,
                self.hard_timeout(),
            ) {
                Some(error) => self.ended(post, Some(error)),
                None => self.same_turn(post),
            },
            TurnInput::Closed => self.ended(post, self.error()),
        }
    }

    /// The turn ended with this error, and is the same otherwise.
    pub open spec fn ended(&self, post: &Self, error: Option<Seq<char>>) -> bool {
        &&& self.same_request(post)
        &&& post.text() == self.text()
        &&& post.tools() == self.tools()
        &&& post.error() == error
        &&& post.over()
    }

    /// What is to be done after anything arrived.
    pub open spec fn steps(&self, input: TurnInput) -> Seq<StepView> {
        match input {
            TurnInput::Event { event } => self.event_steps(event),
            TurnInput::Tick { alive, elapsed } => if tick_error(
                alive,
                elapsed,
                self.hard_timeout(),
            ) is Some {
                seq![StepView::Abandon]
            } else {
                Seq::empty()
            },
            _ => Seq::empty(),
        }
    }

    /// Takes in whatever arrives. A text takes the session's mark.
    pub fn step(
        &mut self,
        input: TurnInput,
        separators: &mut SteerSeparators,
        thread_key: &str,
    ) -> (r: Vec<TurnStep>)
        requires
            !old(self).over(),
        ensures
            old(self).after(
                final(self),
                input,
                old(separators).pending().contains(thread_key@),
            ),
            step_views(r@) == final(self).steps(input),
            final(separators).pending() == if is_text(input) {
                old(separators).pending().remove(thread_key@)
            } else {
                old(separators).pending()
            },
    {
        let mut steps: Vec<TurnStep> = Vec::new();
        assert(step_views(steps@) =~= Seq::empty());
        match input {
            TurnInput::Event { event } => {
                let separate = match &event {
                    AcpEvent::Text(_) => separators.take(thread_key),
                    _ => false,
                };
                self.on_event(event, separate)
            },
            TurnInput::Response { id, error } => {
                if id == self.request_id {
                    if error.is_some() {
                        self.error = error;
                    }
                    self.over = true;
                }
                steps
            },
            TurnInput::Tick { alive, elapsed } => {
                let error = tick_error_of(alive, elapsed, self.hard_timeout);
                if error.is_some() {
                    self.error = error;
                    self.over = true;
                    steps.push(TurnStep::Abandon);
                    assert(step_views(steps@) =~= seq![StepView::Abandon]);
                }
                steps
            },
            TurnInput::Closed => {
                self.over = true;
                steps
            },
        }
    }

    /// The directives in the turn's text, and the text without them.
    pub fn output(&self) -> (r: (OutputDirectives, String))
        ensures
            (r.0@, r.1@) == crate::directives::parsed(self.text()),
    {
        parse_output_directives(self.text.as_str())
    }

    /// What is delivered of a turn: the tools and the text, after the error;
    /// then the warnings. A turn that brought nothing says so, unless it
    /// attaches something.
    pub open spec fn delivered(
        &self,
        text: Seq<char>,
        attaching: bool,
        warnings: Seq<Seq<char>>,
    ) -> Seq<char> {
        with_warnings(
            with_error(
                crate::display::composed(self.tools(), text, false, self.tool_display()),
                self.error(),
                attaching,
            ),
            warnings,
        )
    }

    /// What is delivered of the turn, given its text without directives.
    pub fn final_content(&self, text: &str, attaching: bool, warnings: &Vec<String>) -> (r: String)
        ensures
            r@ == self.delivered(text@, attaching, crate::text::texts(warnings@)),
    {
        let composed = compose_display(self.tools.as_slice(), text, false, self.tool_display);
        let empty = composed.as_str().is_empty();
        let mut out = String::new();
        match &self.error {
            Some(error) => {
                out.push_str("⚠️ ");
                out.push_str(error.as_str());
                if !empty {
                    out.push_str("\n\n");
                    out.push_str(composed.as_str());
                }
            },
            None => {
                if !empty {
                    out.push_str(composed.as_str());
                } else if !attaching {
                    out.push_str(NO_RESPONSE);
                }
            },
        }
        proof {
            assert(out@ =~= with_error(composed@, self.error(), attaching));
        }
        if warnings.len() > 0 {
            if !out.as_str().is_empty() {
                out.push_str("\n\n");
            }
            out.push_str(join(warnings, "\n").as_str());
        }
        assert(crate::text::texts(warnings@).len() == warnings@.len());
        assert(out@ =~= with_warnings(
            with_error(composed@, self.error(), attaching),
            crate::text::texts(warnings@),
        ));
        out
    }
}

/// What the parts of a notification mean for a turn: one with an id responds to
/// a request, whatever else it holds; one that reports nothing means nothing.
pub fn input_of(id: Option<u64>, error: Option<String>, event: Option<AcpEvent>) -> (r: Option<
    TurnInput,
>)
    ensures
        r == match (id, event) {
            (Some(id), _) => Some(TurnInput::Response { id, error }),
            (None, Some(event)) => Some(TurnInput::Event { event }),
            (None, None) => None,
        },
{
    match (id, event) {
        (Some(id), _) => Some(TurnInput::Response { id, error }),
        (None, Some(event)) => Some(TurnInput::Event { event }),
        (None, None) => None,
    }
}

/// The input is a text.
pub open spec fn is_text(input: TurnInput) -> bool {
    input is Event && input->event is Text
}

/// Why a turn ends at a liveness check: the agent died, or took too long.
pub open spec fn tick_error(alive: bool, elapsed: Duration, hard_timeout: Duration) -> Option<
    Seq<char>,
> {
    if !alive {
        Some("Agent process died"@)
    } else if elapsed.in_nanos() > hard_timeout.in_nanos() {
        Some(
            "Agent exceeded hard timeout ("@ + crate::text::decimal(hard_timeout.secs as nat)
                + "s)"@,
        )
    } else {
        None
    }
}

fn tick_error_of(alive: bool, elapsed: Duration, hard_timeout: Duration) -> (r: Option<String>)
    ensures
        crate::text::opt_text(r) == tick_error(alive, elapsed, hard_timeout),
        r is Some == tick_error(alive, elapsed, hard_timeout) is Some,
{
    if !alive {
        Some("Agent process died".to_owned())
    } else if elapsed.as_nanos() > hard_timeout.as_nanos() {
        let mut out = "Agent exceeded hard timeout (".to_owned();
        push_decimal(&mut out, hard_timeout.as_secs());
        out.push_str("s)");
        Some(out)
    } else {
        None
    }
}

/// A turn's tools and text with its error before them.
pub open spec fn with_error(
    composed: Seq<char>,
    error: Option<Seq<char>>,
    attaching: bool,
) -> Seq<char> {
    match error {
        Some(error) => if composed.len() == 0 {
            "⚠️ "@ + error
        } else {
            "⚠️ "@ + error + "\n\n"@ + composed
        },
        None => if composed.len() > 0 {
            composed
        } else if attaching {
            Seq::empty()
        } else {
            NO_RESPONSE@
        },
    }
}

/// A content with warnings after it, each on its line.
pub open spec fn with_warnings(content: Seq<char>, warnings: Seq<Seq<char>>) -> Seq<char> {
    if warnings.len() == 0 {
        content
    } else if content.len() == 0 {
        crate::text::joined(warnings, "\n"@)
    } else {
        content + "\n\n"@ + crate::text::joined(warnings, "\n"@)
    }
}

/// What a streaming turn shows first.
pub open spec fn initial_display(reset: bool) -> Seq<char> {
    if reset {
        SESSION_EXPIRED@ + PLACEHOLDER@
    } else {
        PLACEHOLDER@
    }
}

/// What a streaming turn shows first.
pub fn initial_content(reset: bool) -> (r: String)
    ensures
        r@ == initial_display(reset),
{
    if reset {
        let mut out = SESSION_EXPIRED.to_owned();
        out.push_str(PLACEHOLDER);
        out
    } else {
        PLACEHOLDER.to_owned()
    }
}

/// The messages that a content is delivered in; none for nothing.
pub open spec fn final_messages(content: Seq<char>, limit: nat) -> Seq<Seq<char>> {
    if content.len() == 0 {
        Seq::empty()
    } else {
        crate::format::messages(content, limit)
    }
}

/// The messages that a content is delivered in; none for nothing.
pub fn final_chunks(content: &str, message_limit: usize) -> (r: Vec<String>)
    ensures
        crate::text::texts(r@) == final_messages(content@, message_limit as nat),
{
    if content.is_empty() {
        let none: Vec<String> = Vec::new();
        assert(crate::text::texts(none@) =~= Seq::empty());
        none
    } else {
        split_message(content, message_limit)
    }
}

// ---------------------------------------------------------------------------
// What holds of every turn
// ---------------------------------------------------------------------------

/// Each tool is listed once, with a title that is safe to show.
pub open spec fn tools_ok(tools: Seq<crate::display::ToolView>) -> bool {
    &&& forall|i: int, j: int|
        0 <= i < j < tools.len() ==> (#[trigger] tools[i]).id != (#[trigger] tools[j]).id
    &&& forall|i: int|
        0 <= i < tools.len() ==> crate::display::safe_in_code((#[trigger] tools[i]).title)
}

/// Starting and finishing tools keeps each listed once, with a safe title.
pub proof fn lemma_tools_stay_ok(
    tools: Seq<crate::display::ToolView>,
    id: Seq<char>,
    title: Seq<char>,
    status: Seq<char>,
)
    requires
        tools_ok(tools),
    ensures
        tools_ok(tool_started(tools, id, title)),
        tools_ok(tool_finished(tools, id, title, status)),
{
    lemma_tool_place(tools, id, 0);
    crate::display::lemma_flat_title_is_safe(title);
}

/// Whatever arrives in a turn, each tool stays listed once, with a title that
/// is safe to show.
pub proof fn lemma_turn_tools_stay_ok(
    before: &Turn,
    after: &Turn,
    input: TurnInput,
    separate: bool,
)
    requires
        before.after(after, input, separate),
        tools_ok(crate::display::tool_views(before.tools())),
    ensures
        tools_ok(crate::display::tool_views(after.tools())),
{
    let tools = crate::display::tool_views(before.tools());
    if let TurnInput::Event { event } = input {
        match event {
            AcpEvent::ToolStart { id, title } => {
                lemma_tools_stay_ok(tools, id@, title@, Seq::empty());
            },
            AcpEvent::ToolDone { id, title, status } => {
                lemma_tools_stay_ok(tools, id@, title@, status@);
            },
            _ => {},
        }
    }
}

/// A tool that was finished no longer runs, and a tool that was started under a
/// title does.
pub proof fn lemma_tool_state_follows(
    tools: Seq<crate::display::ToolView>,
    id: Seq<char>,
    title: Seq<char>,
    status: Seq<char>,
)
    requires
        title.len() > 0,
    ensures
        ({
            let started = tool_started(tools, id, title);
            let k = tool_place(started, id, 0);
            &&& k < started.len()
            &&& started[k].state == ToolState::Running
        }),
        ({
            let finished = tool_finished(tools, id, title, status);
            let k = tool_place(finished, id, 0);
            &&& k < finished.len()
            &&& finished[k].state == end_state(status)
        }),
{
    lemma_tool_place(tools, id, 0);
    let started = tool_started(tools, id, title);
    let finished = tool_finished(tools, id, title, status);
    lemma_tool_place(started, id, 0);
    lemma_tool_place(finished, id, 0);
    let k = tool_place(tools, id, 0);
    assert(started[k].id == id);
    assert(finished[k].id == id);
    assert forall|j: int| 0 <= j < k implies (#[trigger] started[j]).id != id by {
        assert(tools[j].id != id);
    }
    assert forall|j: int| 0 <= j < k implies (#[trigger] finished[j]).id != id by {
        assert(tools[j].id != id);
    }
    assert(tool_place(started, id, 0) == k);
    assert(tool_place(finished, id, 0) == k);
}

/// A response to another request never bears on the turn: a late one does not
/// leak into the next prompt.
pub proof fn lemma_stale_response_ignored(
    before: &Turn,
    after: &Turn,
    id: u64,
    error: Option<String>,
    separate: bool,
)
    requires
        before.after(after, TurnInput::Response { id, error }, separate),
        id != before.request_id(),
    ensures
        before.same_turn(after),
{
}

/// The text of a turn is only ever added to.
pub proof fn lemma_text_is_kept(before: &Turn, after: &Turn, input: TurnInput, separate: bool)
    requires
        before.after(after, input, separate),
    ensures
        crate::text::begins(after.text(), before.text()),
{
    match input {
        TurnInput::Event { event } => match event {
            AcpEvent::Text(t) => {
                crate::stream::lemma_appended_keeps_both(before.text(), t@, separate);
            },
            _ => {},
        },
        _ => {},
    }
    assert(before.text().take(before.text().len() as int) =~= before.text());
}

/// A turn that attaches nothing, that failed or that brought text never
/// delivers nothing.
pub proof fn lemma_something_is_delivered(
    turn: &Turn,
    text: Seq<char>,
    attaching: bool,
    warnings: Seq<Seq<char>>,
)
    requires
        !attaching || turn.error() is Some || crate::text::trim_end(text).len() > 0,
    ensures
        turn.delivered(text, attaching, warnings).len() > 0,
{
    reveal_strlit("⚠️ ");
    reveal_strlit("_(no response)_");
}

proof fn lemma_joined_not_empty(parts: Seq<Seq<char>>, sep: Seq<char>)
    requires
        parts.len() > 0,
        parts.last().len() > 0,
    ensures
        crate::text::joined(parts, sep).len() > 0,
{
}

/// No turn ends in silence: it delivers a text or files, however its requests
/// for files fared.
pub proof fn lemma_no_silent_turn(
    turn: &Turn,
    text: Seq<char>,
    rules: &OutboundAttachments,
    requested: Seq<Requested>,
    outcomes: Seq<Loaded>,
)
    requires
        outcomes.len() == rules.tried(requested.len()),
    ensures
        turn.delivered(text, requested.len() > 0, rules.warnings(requested, outcomes)).len() > 0
            || crate::attachments::loaded_files(outcomes).len() > 0,
{
    let warnings = rules.warnings(requested, outcomes);
    if requested.len() == 0 {
        lemma_something_is_delivered(turn, text, false, warnings);
    } else {
        rules.lemma_request_is_answered(requested, outcomes);
        if warnings.len() > 0 {
            rules.lemma_warnings_speak(requested, outcomes);
            lemma_joined_not_empty(warnings, "\n"@);
        }
    }
}

// ---------------------------------------------------------------------------
// What a turn shows and delivers
// ---------------------------------------------------------------------------

/// A tool that starts is listed as running under its flattened title: in its
/// place if it is listed, else last. No other tool changes, and one without a
/// title changes nothing.
pub proof fn lemma_start_lists_the_tool(
    tools: Seq<crate::display::ToolView>,
    id: Seq<char>,
    title: Seq<char>,
    k: int,
)
    requires
        tools_ok(tools),
        0 <= k <= tools.len(),
        k < tools.len() ==> tools[k].id == id,
        k == tools.len() ==> forall|i: int| 0 <= i < tools.len() ==> (#[trigger] tools[i]).id != id,
    ensures
        ({
            let after = tool_started(tools, id, title);
            if title.len() == 0 {
                after == tools
            } else {
                &&& after.len() == if k < tools.len() {
                    tools.len()
                } else {
                    tools.len() + 1
                }
                &&& after[k] == (crate::display::ToolView {
                    id,
                    title: crate::display::flat_title(title),
                    state: ToolState::Running,
                })
                &&& forall|i: int| 0 <= i < tools.len() && i != k ==> after[i] == tools[i]
            }
        }),
{
    lemma_tool_place(tools, id, 0);
    let p = tool_place(tools, id, 0);
    if p < tools.len() && k < tools.len() && p != k {
        if p < k {
            assert(tools[p].id != tools[k].id);
        } else {
            assert(tools[k].id != id);
        }
    }
}

/// A tool that ends is listed as completed if it says so, else as failed: in its
/// place, under its new title if it brings one, else under its old; last if it
/// was not listed and has a title. No other tool changes.
pub proof fn lemma_end_marks_the_tool(
    tools: Seq<crate::display::ToolView>,
    id: Seq<char>,
    title: Seq<char>,
    status: Seq<char>,
    k: int,
)
    requires
        tools_ok(tools),
        0 <= k <= tools.len(),
        k < tools.len() ==> tools[k].id == id,
        k == tools.len() ==> forall|i: int| 0 <= i < tools.len() ==> (#[trigger] tools[i]).id != id,
    ensures
        ({
            let after = tool_finished(tools, id, title, status);
            let state = if status == "completed"@ {
                ToolState::Completed
            } else {
                ToolState::Failed
            };
            if k == tools.len() && title.len() == 0 {
                after == tools
            } else {
                &&& after.len() == if k < tools.len() {
                    tools.len()
                } else {
                    tools.len() + 1
                }
                &&& after[k].id == id
                &&& after[k].state == state
                &&& title.len() > 0 ==> after[k].title == crate::display::flat_title(title)
                &&& title.len() == 0 ==> after[k].title == tools[k].title
                &&& forall|i: int| 0 <= i < tools.len() && i != k ==> after[i] == tools[i]
            }
        }),
{
    lemma_tool_place(tools, id, 0);
    let p = tool_place(tools, id, 0);
    if p < tools.len() && k < tools.len() && p != k {
        if p < k {
            assert(tools[p].id != tools[k].id);
        } else {
            assert(tools[k].id != id);
        }
    }
}

/// A turn ends exactly with the response to its own request, with the end of the
/// agent's output, or where the agent is found dead or over its time; and its
/// error is what that response or check says.
pub proof fn lemma_how_a_turn_ends(before: &Turn, after: &Turn, input: TurnInput, separate: bool)
    requires
        before.after(after, input, separate),
        !before.over(),
    ensures
        after.over() <==> match input {
            TurnInput::Event { event } => false,
            TurnInput::Response { id, error } => id == before.request_id(),
            TurnInput::Tick { alive, elapsed } => !alive || elapsed.in_nanos()
                > before.hard_timeout().in_nanos(),
            TurnInput::Closed => true,
        },
        after.error() == match input {
            TurnInput::Response { id, error } => if id == before.request_id() && error is Some {
                Some(error->0@)
            } else {
                before.error()
            },
            TurnInput::Tick { alive, elapsed } => if !alive {
                Some("Agent process died"@)
            } else if elapsed.in_nanos() > before.hard_timeout().in_nanos() {
                Some(
                    "Agent exceeded hard timeout ("@ + crate::text::decimal(
                        before.hard_timeout().secs as nat,
                    ) + "s)"@,
                )
            } else {
                before.error()
            },
            _ => before.error(),
        },
{
}

/// Only a text changes the text of a turn, by being appended; only tools change
/// the tools.
pub proof fn lemma_what_an_input_changes(
    before: &Turn,
    after: &Turn,
    input: TurnInput,
    separate: bool,
)
    requires
        before.after(after, input, separate),
    ensures
        match input {
            TurnInput::Event { event } => match event {
                AcpEvent::Text(t) => after.text() == crate::stream::appended(
                    before.text(),
                    t@,
                    separate,
                ),
                _ => after.text() == before.text(),
            },
            _ => after.text() == before.text(),
        },
        match input {
            TurnInput::Event { event } => match event {
                AcpEvent::ToolStart { id, title } => true,
                AcpEvent::ToolDone { id, title, status } => true,
                _ => crate::display::tool_views(after.tools()) == crate::display::tool_views(
                    before.tools(),
                ),
            },
            _ => crate::display::tool_views(after.tools()) == crate::display::tool_views(
                before.tools(),
            ),
        },
        after.request_id() == before.request_id(),
        after.streaming() == before.streaming(),
{
}

/// While a turn streams, every text and every tool is shown at once, as it
/// stands then; a turn that does not stream shows nothing on the way. A tool is
/// reacted to when it starts, and thinking when it ends; a request is given up
/// exactly where a check ends the turn.
pub proof fn lemma_what_follows_an_input(turn: &Turn, input: TurnInput)
    ensures
        ({
            let steps = turn.steps(input);
            let shows = StepView::Show {
                content: crate::display::composed(
                    turn.tools(),
                    turn.text(),
                    true,
                    turn.tool_display(),
                ),
            };
            let visible = match input {
                TurnInput::Event { event } => match event {
                    AcpEvent::Text(t) => true,
                    AcpEvent::ToolStart { id, title } => title@.len() > 0,
                    AcpEvent::ToolDone { id, title, status } => true,
                    _ => false,
                },
                _ => false,
            };
            &&& turn.streaming() && visible ==> steps.len() > 0 && steps.last() == shows
            &&& forall|i: int|
                0 <= i < steps.len() && (#[trigger] steps[i]) is Show ==> turn.streaming()
                    && visible && steps[i] == shows
            &&& steps.contains(StepView::SetThinking) <==> (match input {
                TurnInput::Event { event } => event is Thinking || event is ToolDone,
                _ => false,
            })
            &&& forall|t: Seq<char>|
                (#[trigger] steps.contains(StepView::SetTool { title: t })) <==> (match input {
                    TurnInput::Event { event } => match event {
                        AcpEvent::ToolStart { id, title } => title@.len() > 0 && title@ == t,
                        _ => false,
                    },
                    _ => false,
                })
            &&& steps.contains(StepView::AdoptConfig) <==> (match input {
                TurnInput::Event { event } => event is ConfigUpdate,
                _ => false,
            })
            &&& steps.contains(StepView::Abandon) <==> (match input {
                TurnInput::Tick { alive, elapsed } => !alive || elapsed.in_nanos()
                    > turn.hard_timeout().in_nanos(),
                _ => false,
            })
        }),
{
    let steps = turn.steps(input);
    match input {
        TurnInput::Event { event } => match event {
            AcpEvent::Thinking => {
                assert(steps[0] == StepView::SetThinking);
            },
            AcpEvent::ToolStart { id, title } => {
                if title@.len() > 0 {
                    assert(steps[0] == StepView::SetTool { title: title@ });
                }
            },
            AcpEvent::ToolDone { id, title, status } => {
                assert(steps[0] == StepView::SetThinking);
            },
            AcpEvent::ConfigUpdate => {
                assert(steps[0] == StepView::AdoptConfig);
            },
            _ => {},
        },
        TurnInput::Tick { alive, elapsed } => {
            if tick_error(alive, elapsed, turn.hard_timeout()) is Some {
                assert(steps[0] == StepView::Abandon);
            }
        },
        _ => {},
    }
}

/// What is delivered of a turn is what is shown of its tools and text; an error
/// comes before it, and warnings come behind it. Where there is nothing to show,
/// the turn says so, unless it attaches something or has an error to tell.
pub proof fn lemma_what_is_delivered(
    turn: &Turn,
    text: Seq<char>,
    attaching: bool,
    warnings: Seq<Seq<char>>,
)
    ensures
        ({
            let shown = crate::display::composed(
                turn.tools(),
                text,
                false,
                turn.tool_display(),
            );
            let calm = turn.delivered(text, attaching, Seq::empty());
            let all = turn.delivered(text, attaching, warnings);
            &&& turn.error() is None && shown.len() > 0 ==> calm == shown
            &&& turn.error() is None && shown.len() == 0 && attaching ==> calm.len() == 0
            &&& turn.error() is None && shown.len() == 0 && !attaching ==> calm
                == "_(no response)_"@
            &&& turn.error() is Some && shown.len() == 0 ==> calm == "⚠️ "@ + turn.error()->0
            &&& turn.error() is Some && shown.len() > 0 ==> calm == "⚠️ "@ + turn.error()->0
                + "\n\n"@ + shown
            &&& warnings.len() > 0 && calm.len() == 0 ==> all == crate::text::joined(
                warnings,
                "\n"@,
            )
            &&& warnings.len() > 0 && calm.len() > 0 ==> all == calm + "\n\n"@
                + crate::text::joined(warnings, "\n"@)
        }),
{
}

/// A turn that streams first shows a placeholder, behind the word on a session
/// that was lost.
pub proof fn lemma_what_is_shown_first()
    ensures
        initial_display(false) == seq!['…'],
        initial_display(true) == "⚠️ _Session expired, starting fresh..._\n\n"@.push('…'),
{
    reveal_strlit("…");
    assert("…"@ =~= seq!['…']);
    assert(initial_display(true) =~= "⚠️ _Session expired, starting fresh..._\n\n"@.push('…'));
}

/// The messages of a content are the content, and fit the platform.
pub proof fn lemma_final_messages_are_the_content(content: Seq<char>, limit: nat)
    ensures
        final_messages(content, limit).flatten() == content,
        content.len() > 0 <==> final_messages(content, limit).len() > 0,
        0 < content.len() <= limit ==> final_messages(content, limit) == seq![content],
        forall|i: int|
            0 <= i < final_messages(content, limit).len() ==> 0 < (#[trigger] final_messages(
                content,
                limit,
            )[i]).len() <= crate::format::room(limit),
{
    crate::format::lemma_messages_lossless(content, limit);
    crate::format::lemma_messages_fit(content, limit);
    crate::format::lemma_messages_are_as_long_as_can_be(content, limit);
    if content.len() == 0 {
        assert(content =~= Seq::empty());
        assert(crate::format::messages(content, limit) == Seq::<Seq<char>>::empty());
    } else {
        assert(crate::format::messages(content, limit).len() > 0);
    }
}

/// A text takes the mark of its session, and nothing else does. Streaming edits
/// come a second and a half apart.
pub proof fn lemma_only_a_text_takes_the_mark(event: AcpEvent, id: u64, error: Option<String>)
    ensures
        is_text(TurnInput::Event { event }) <==> event is Text,
        !is_text(TurnInput::Response { id, error }),
        !is_text(TurnInput::Closed),
        EDIT_INTERVAL_MS == 1500,
{
}

/// The text with which a turn begins.
pub open spec fn first_text(reset: bool) -> Seq<char> {
    if reset {
        SESSION_EXPIRED@
    } else {
        Seq::empty()
    }
}

/// A turn of a lost session says so before anything else; another begins with
/// nothing.
pub proof fn lemma_lost_session_is_told()
    ensures
        first_text(true) == "⚠️ _Session expired, starting fresh..._\n\n"@,
        first_text(false).len() == 0,
{
}

} // verus!
