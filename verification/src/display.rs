//! What a user sees of a turn: the tools that ran and the text so far.

use vstd::prelude::*;

use crate::config::ToolDisplay;
use crate::text::{chars_of, join, push_decimal, string_of, trim_end_chars};

verus! {

/// How far a tool call has come.
#[derive(Debug, Clone, Copy, PartialEq, Eq, Structural)]
pub enum ToolState {
    Running,
    Completed,
    Failed,
}

/// One tool call of the current turn.
#[derive(Debug)]
pub struct ToolEntry {
    pub id: String,
    pub title: String,
    pub state: ToolState,
}

/// A tool call as texts.
pub struct ToolView {
    pub id: Seq<char>,
    pub title: Seq<char>,
    pub state: ToolState,
}

impl View for ToolEntry {
    type V = ToolView;

    open spec fn view(&self) -> ToolView {
        ToolView { id: self.id@, title: self.title@, state: self.state }
    }
}

impl Clone for ToolEntry {
    fn clone(&self) -> (r: Self)
        ensures
            r@ == self@,
    {
        ToolEntry { id: self.id.clone(), title: self.title.clone(), state: self.state }
    }
}

pub open spec fn tool_views(tools: Seq<ToolEntry>) -> Seq<ToolView> {
    tools.map_values(|t: ToolEntry| t@)
}

/// Finished or running tools are listed one by one up to this number while a
/// turn streams.
pub const TOOL_COLLAPSE_THRESHOLD: usize = 3;

// ---------------------------------------------------------------------------
// One tool
// ---------------------------------------------------------------------------

/// A title on one line, safe inside an inline code span: carriage returns are
/// dropped, line feeds become ` ; `, backticks become quotes.
pub open spec fn flat_title(s: Seq<char>) -> Seq<char>
    decreases s.len(),
{
    if s.len() == 0 {
        Seq::empty()
    } else {
        let front = flat_title(s.drop_last());
        let c = s.last();
        if c == '\r' {
            front
        } else if c == '\n' {
            front + " ; "@
        } else if c == '`' {
            front.push('\'')
        } else {
            front.push(c)
        }
    }
}

/// Flattens a tool-call title into a single line safe for inline code.
pub fn sanitize_title(title: &str) -> (r: String)
    ensures
        r@ == flat_title(title@),
{
    let all = chars_of(title);
    let mut out = String::new();
    let mut i: usize = 0;
    while i < all.len()
        invariant
            i <= all.len(),
            all@ == title@,
            out@ == flat_title(title@.take(i as int)),
        decreases all.len() - i,
    {
        assert(title@.take(i + 1).drop_last() =~= title@.take(i as int));
        let c = all[i];
        if c == '\n' {
            out.push_str(" ; ");
        } else if c == '`' {
            out.push('\'');
        } else if c != '\r' {
            out.push(c);
        }
        i += 1;
    }
    assert(title@.take(title@.len() as int) =~= title@);
    out
}

/// No line break and no backtick.
pub open spec fn safe_in_code(s: Seq<char>) -> bool {
    forall|i: int|
        0 <= i < s.len() ==> (#[trigger] s[i]) != '\n' && s[i] != '\r' && s[i] != '`'
}

/// A flattened title stays on its line and cannot close the code span that
/// shows it.
pub proof fn lemma_flat_title_is_safe(s: Seq<char>)
    ensures
        safe_in_code(flat_title(s)),
    decreases s.len(),
{
    reveal_strlit(" ; ");
    if s.len() > 0 {
        lemma_flat_title_is_safe(s.drop_last());
    }
}

/// A title that is safe already stays as it is; so flattening twice is
/// flattening once.
pub proof fn lemma_safe_title_is_kept(s: Seq<char>)
    ensures
        safe_in_code(s) ==> flat_title(s) == s,
        flat_title(flat_title(s)) == flat_title(s),
{
    if safe_in_code(s) {
        lemma_safe_title_stays(s);
    }
    lemma_flat_title_is_safe(s);
    lemma_safe_title_stays(flat_title(s));
}

proof fn lemma_safe_title_stays(s: Seq<char>)
    requires
        safe_in_code(s),
    ensures
        flat_title(s) == s,
    decreases s.len(),
{
    if s.len() > 0 {
        let front = s.drop_last();
        assert forall|i: int| 0 <= i < front.len() implies (#[trigger] front[i]) != '\n'
            && front[i] != '\r' && front[i] != '`' by {
            assert(s[i] == front[i]);
        }
        lemma_safe_title_stays(front);
        assert(s[s.len() - 1] == s.last());
        assert(front.push(s.last()) =~= s);
    } else {
        assert(s =~= Seq::empty());
    }
}

pub open spec fn icon(state: ToolState) -> Seq<char> {
    match state {
        ToolState::Running => "🔧"@,
        ToolState::Completed => "✅"@,
        ToolState::Failed => "❌"@,
    }
}

/// A tool as it is listed: icon, title in code, and an ellipsis while it runs.
pub open spec fn rendered(e: ToolEntry) -> Seq<char> {
    icon(e.state) + " `"@ + e.title@ + "`"@ + if e.state == ToolState::Running {
        "..."@
    } else {
        Seq::empty()
    }
}

impl ToolEntry {
    /// The tool as it is listed.
    pub fn render(&self) -> (r: String)
        ensures
            r@ == rendered(*self),
    {
        let mut out = String::new();
        match self.state {
            ToolState::Running => out.push_str("🔧"),
            ToolState::Completed => out.push_str("✅"),
            ToolState::Failed => out.push_str("❌"),
        }
        out.push_str(" `");
        out.push_str(self.title.as_str());
        out.push_str("`");
        if self.state == ToolState::Running {
            out.push_str("...");
        }
        assert(out@ =~= rendered(*self));
        out
    }
}

// ---------------------------------------------------------------------------
// Lists of tools
// ---------------------------------------------------------------------------

/// The number of tools in a state.
pub open spec fn count(tools: Seq<ToolEntry>, state: ToolState) -> nat
    decreases tools.len(),
{
    if tools.len() == 0 {
        0
    } else {
        count(tools.drop_last(), state) + if tools.last().state == state {
            1nat
        } else {
            0
        }
    }
}

/// The running tools, or those that are not running, in order.
pub open spec fn picked(tools: Seq<ToolEntry>, running: bool) -> Seq<ToolEntry>
    decreases tools.len(),
{
    if tools.len() == 0 {
        Seq::empty()
    } else if (tools.last().state == ToolState::Running) == running {
        picked(tools.drop_last(), running).push(tools.last())
    } else {
        picked(tools.drop_last(), running)
    }
}

/// The tools one to a line.
pub open spec fn listed(tools: Seq<ToolEntry>) -> Seq<char>
    decreases tools.len(),
{
    if tools.len() == 0 {
        Seq::empty()
    } else {
        listed(tools.drop_last()) + rendered(tools.last()) + "\n"@
    }
}

/// `mark` and a count.
pub open spec fn counted(mark: Seq<char>, n: nat) -> Seq<char> {
    mark + " "@ + crate::text::decimal(n)
}

/// The counts that are not zero, each with its mark.
pub open spec fn tally(done: nat, failed: nat, running: nat) -> Seq<Seq<char>> {
    (if done > 0 {
        seq![counted("✅"@, done)]
    } else {
        Seq::empty()
    }) + (if failed > 0 {
        seq![counted("❌"@, failed)]
    } else {
        Seq::empty()
    }) + (if running > 0 {
        seq![counted("🔧"@, running)]
    } else {
        Seq::empty()
    })
}

fn count_state(tools: &[ToolEntry], state: ToolState) -> (n: usize)
    ensures
        n == count(tools@, state),
        n <= tools@.len(),
{
    let mut n: usize = 0;
    let mut i: usize = 0;
    while i < tools.len()
        invariant
            i <= tools.len(),
            n <= i,
            n == count(tools@.take(i as int), state),
        decreases tools.len() - i,
    {
        assert(tools@.take(i + 1).drop_last() =~= tools@.take(i as int));
        if tools[i].state == state {
            n += 1;
        }
        i += 1;
    }
    assert(tools@.take(tools@.len() as int) =~= tools@);
    n
}

proof fn lemma_counts(tools: Seq<ToolEntry>)
    ensures
        count(tools, ToolState::Completed) + count(tools, ToolState::Failed) + count(
            tools,
            ToolState::Running,
        ) == tools.len(),
        picked(tools, true).len() == count(tools, ToolState::Running),
    decreases tools.len(),
{
    if tools.len() > 0 {
        lemma_counts(tools.drop_last());
    }
}

spec fn at_places(tools: Seq<ToolEntry>, places: Seq<usize>) -> Seq<ToolEntry> {
    places.map_values(|k: usize| tools[k as int])
}

fn pick(tools: &[ToolEntry], running: bool) -> (places: Vec<usize>)
    ensures
        at_places(tools@, places@) == picked(tools@, running),
        places@.len() == picked(tools@, running).len(),
        forall|k: int| 0 <= k < places@.len() ==> #[trigger] places@[k] < tools@.len(),
{
    let mut places: Vec<usize> = Vec::new();
    let mut i: usize = 0;
    while i < tools.len()
        invariant
            i <= tools.len(),
            at_places(tools@, places@) == picked(tools@.take(i as int), running),
            forall|k: int| 0 <= k < places@.len() ==> #[trigger] places@[k] < tools@.len(),
        decreases tools.len() - i,
    {
        assert(tools@.take(i + 1).drop_last() =~= tools@.take(i as int));
        if (tools[i].state == ToolState::Running) == running {
            let ghost before = places@;
            places.push(i);
            assert(at_places(tools@, places@) =~= at_places(tools@, before).push(tools@[i as int]));
        }
        i += 1;
    }
    assert(tools@.take(tools@.len() as int) =~= tools@);
    assert(at_places(tools@, places@).len() == places@.len());
    places
}

fn push_listed(out: &mut String, tools: &[ToolEntry], places: &Vec<usize>, from: usize)
    requires
        from <= places@.len(),
        forall|k: int| 0 <= k < places@.len() ==> #[trigger] places@[k] < tools@.len(),
    ensures
        final(out)@ == old(out)@ + listed(at_places(tools@, places@).skip(from as int)),
{
    let ghost chosen = at_places(tools@, places@).skip(from as int);
    let mut k: usize = from;
    assert(out@ =~= old(out)@ + listed(chosen.take(0)));
    while k < places.len()
        invariant
            from <= k <= places.len(),
            chosen == at_places(tools@, places@).skip(from as int),
            chosen.len() == places@.len() - from,
            forall|k: int| 0 <= k < places@.len() ==> #[trigger] places@[k] < tools@.len(),
            out@ == old(out)@ + listed(chosen.take(k - from)),
        decreases places.len() - k,
    {
        assert(chosen.take(k + 1 - from).drop_last() =~= chosen.take(k - from));
        assert(chosen[k - from] == tools@[places@[k as int] as int]);
        let s = tools[places[k]].render();
        out.push_str(s.as_str());
        out.push_str("\n");
        assert(out@ =~= old(out)@ + listed(chosen.take(k + 1 - from)));
        k += 1;
    }
    assert(chosen.take(chosen.len() as int) =~= chosen);
}

fn counted_text(mark: &str, n: usize) -> (r: String)
    ensures
        r@ == counted(mark@, n as nat),
{
    let mut out = String::new();
    out.push_str(mark);
    out.push_str(" ");
    push_decimal(&mut out, n as u64);
    assert(out@ =~= counted(mark@, n as nat));
    out
}

fn tally_texts(done: usize, failed: usize, running: usize) -> (parts: Vec<String>)
    ensures
        crate::text::texts(parts@) == tally(done as nat, failed as nat, running as nat),
        parts@.len() == tally(done as nat, failed as nat, running as nat).len(),
{
    let mut parts: Vec<String> = Vec::new();
    if done > 0 {
        parts.push(counted_text("✅", done));
    }
    if failed > 0 {
        parts.push(counted_text("❌", failed));
    }
    if running > 0 {
        parts.push(counted_text("🔧", running));
    }
    assert(crate::text::texts(parts@) =~= tally(done as nat, failed as nat, running as nat));
    assert(crate::text::texts(parts@).len() == parts@.len());
    parts
}

// ---------------------------------------------------------------------------
// The whole display
// ---------------------------------------------------------------------------

/// Counts only, never a title.
pub open spec fn compact_block(tools: Seq<ToolEntry>) -> Seq<char> {
    let parts = tally(
        count(tools, ToolState::Completed),
        count(tools, ToolState::Failed),
        count(tools, ToolState::Running),
    );
    if parts.len() == 0 {
        Seq::empty()
    } else {
        crate::text::joined(parts, " · "@) + " tool(s)\n"@
    }
}

/// While streaming: the finished tools, or their counts once there are more
/// than three; then the running ones, of which the last three are listed.
pub open spec fn streaming_block(tools: Seq<ToolEntry>) -> Seq<char> {
    let done = count(tools, ToolState::Completed);
    let failed = count(tools, ToolState::Failed);
    let running = picked(tools, true);
    let finished_part = if done + failed <= TOOL_COLLAPSE_THRESHOLD {
        listed(picked(tools, false))
    } else {
        crate::text::joined(tally(done, failed, 0), " · "@) + " tool(s) completed\n"@
    };
    let running_part = if running.len() <= TOOL_COLLAPSE_THRESHOLD {
        listed(running)
    } else {
        let hidden = running.len() - TOOL_COLLAPSE_THRESHOLD;
        "🔧 "@ + crate::text::decimal(hidden as nat) + " more running\n"@ + listed(
            running.skip(hidden),
        )
    };
    finished_part + running_part
}

/// The lines about tools, with an empty line behind them where there are any.
pub open spec fn tool_block(
    tools: Seq<ToolEntry>,
    streaming: bool,
    display: ToolDisplay,
) -> Seq<char> {
    let lines = match display {
        ToolDisplay::Hidden => Seq::empty(),
        ToolDisplay::Compact => compact_block(tools),
        ToolDisplay::Full => if streaming {
            streaming_block(tools)
        } else {
            listed(tools)
        },
    };
    if tools.len() == 0 || lines.len() == 0 {
        Seq::empty()
    } else {
        lines + "\n"@
    }
}

/// What is shown: the tools, then the text without trailing white space.
pub open spec fn composed(
    tools: Seq<ToolEntry>,
    text: Seq<char>,
    streaming: bool,
    display: ToolDisplay,
) -> Seq<char> {
    tool_block(tools, streaming, display) + crate::text::trim_end(text)
}

fn push_compact(out: &mut String, tools: &[ToolEntry])
    ensures
        final(out)@ == old(out)@ + compact_block(tools@),
{
    let parts = tally_texts(
        count_state(tools, ToolState::Completed),
        count_state(tools, ToolState::Failed),
        count_state(tools, ToolState::Running),
    );
    if parts.len() > 0 {
        let s = join(&parts, " · ");
        out.push_str(s.as_str());
        out.push_str(" tool(s)\n");
    }
    assert(out@ =~= old(out)@ + compact_block(tools@));
}

fn push_streaming(out: &mut String, tools: &[ToolEntry])
    ensures
        final(out)@ == old(out)@ + streaming_block(tools@),
{
    let done = count_state(tools, ToolState::Completed);
    let failed = count_state(tools, ToolState::Failed);
    proof {
        lemma_counts(tools@);
        assert(done + failed <= tools.len());
    }
    if done + failed <= TOOL_COLLAPSE_THRESHOLD {
        let places = pick(tools, false);
        push_listed(out, tools, &places, 0);
        assert(picked(tools@, false).skip(0) =~= picked(tools@, false));
    } else {
        let parts = tally_texts(done, failed, 0);
        let s = join(&parts, " · ");
        out.push_str(s.as_str());
        out.push_str(" tool(s) completed\n");
    }
    let ghost middle = out@;
    let running = pick(tools, true);
    if running.len() <= TOOL_COLLAPSE_THRESHOLD {
        push_listed(out, tools, &running, 0);
        assert(picked(tools@, true).skip(0) =~= picked(tools@, true));
    } else {
        let hidden: usize = running.len() - TOOL_COLLAPSE_THRESHOLD;
        out.push_str("🔧 ");
        push_decimal(out, hidden as u64);
        out.push_str(" more running\n");
        push_listed(out, tools, &running, hidden);
    }
    assert(out@ =~= old(out)@ + streaming_block(tools@));
}

fn push_all(out: &mut String, tools: &[ToolEntry])
    ensures
        final(out)@ == old(out)@ + listed(tools@),
{
    let mut i: usize = 0;
    assert(out@ =~= old(out)@ + listed(tools@.take(0)));
    while i < tools.len()
        invariant
            i <= tools.len(),
            out@ == old(out)@ + listed(tools@.take(i as int)),
        decreases tools.len() - i,
    {
        assert(tools@.take(i + 1).drop_last() =~= tools@.take(i as int));
        let s = tools[i].render();
        out.push_str(s.as_str());
        out.push_str("\n");
        assert(out@ =~= old(out)@ + listed(tools@.take(i + 1)));
        i += 1;
    }
    assert(tools@.take(tools@.len() as int) =~= tools@);
}

/// What is shown of a turn.
pub fn compose_display(
    tool_lines: &[ToolEntry],
    text: &str,
    streaming: bool,
    tool_display: ToolDisplay,
) -> (r: String)
    ensures
        r@ == composed(tool_lines@, text@, streaming, tool_display),
{
    let mut out = String::new();
    if tool_lines.len() > 0 {
        match tool_display {
            ToolDisplay::Compact => push_compact(&mut out, tool_lines),
            ToolDisplay::Full => {
                if streaming {
                    push_streaming(&mut out, tool_lines);
                } else {
                    push_all(&mut out, tool_lines);
                }
            },
            ToolDisplay::Hidden => {},
        }
        if !out.as_str().is_empty() {
            out.push_str("\n");
        }
    }
    assert(out@ =~= tool_block(tool_lines@, streaming, tool_display));
    let all = chars_of(text);
    let kept = string_of(trim_end_chars(all.as_slice()));
    out.push_str(kept.as_str());
    out
}

// ---------------------------------------------------------------------------
// Laws
// ---------------------------------------------------------------------------

/// Hidden tools leave only the text.
pub proof fn lemma_hidden_tools_leave_text(tools: Seq<ToolEntry>, text: Seq<char>, streaming: bool)
    ensures
        composed(tools, text, streaming, ToolDisplay::Hidden) == crate::text::trim_end(text),
{
    assert(composed(tools, text, streaming, ToolDisplay::Hidden) =~= crate::text::trim_end(text));
}

/// The compact display depends on the states of the tools alone: no title and
/// no id can show through it.
pub proof fn lemma_compact_hides_titles(
    a: Seq<ToolEntry>,
    b: Seq<ToolEntry>,
    text: Seq<char>,
    streaming: bool,
)
    requires
        a.len() == b.len(),
        forall|i: int| 0 <= i < a.len() ==> (#[trigger] a[i]).state == b[i].state,
    ensures
        composed(a, text, streaming, ToolDisplay::Compact) == composed(
            b,
            text,
            streaming,
            ToolDisplay::Compact,
        ),
{
    lemma_count_by_state(a, b, ToolState::Completed);
    lemma_count_by_state(a, b, ToolState::Failed);
    lemma_count_by_state(a, b, ToolState::Running);
}

proof fn lemma_count_by_state(a: Seq<ToolEntry>, b: Seq<ToolEntry>, state: ToolState)
    requires
        a.len() == b.len(),
        forall|i: int| 0 <= i < a.len() ==> (#[trigger] a[i]).state == b[i].state,
    ensures
        count(a, state) == count(b, state),
    decreases a.len(),
{
    if a.len() > 0 {
        assert(a[a.len() - 1].state == b[a.len() - 1].state);
        lemma_count_by_state(a.drop_last(), b.drop_last(), state);
    }
}

/// After the turn, the full display shows every tool with its complete title.
pub proof fn lemma_full_display_shows_every_tool(tools: Seq<ToolEntry>, text: Seq<char>, i: int)
    requires
        0 <= i < tools.len(),
    ensures
        crate::text::occurs(
            composed(tools, text, false, ToolDisplay::Full),
            rendered(tools[i]),
        ),
{
    lemma_listed_shows(tools, i);
    let lines = listed(tools);
    let pat = rendered(tools[i]);
    let at = choose|j: int| crate::text::occurs_at(lines, pat, j);
    lemma_rendered_not_empty(tools[i]);
    let whole = composed(tools, text, false, ToolDisplay::Full);
    assert(whole.subrange(at, at + pat.len()) =~= lines.subrange(at, at + pat.len()));
    assert(crate::text::occurs_at(whole, pat, at));
}

proof fn lemma_rendered_not_empty(e: ToolEntry)
    ensures
        rendered(e).len() > 0,
{
    reveal_strlit(" `");
}

proof fn lemma_listed_shows(tools: Seq<ToolEntry>, i: int)
    requires
        0 <= i < tools.len(),
    ensures
        crate::text::occurs(listed(tools), rendered(tools[i])),
    decreases tools.len(),
{
    let front = listed(tools.drop_last());
    let pat = rendered(tools[i]);
    if i == tools.len() - 1 {
        let at = front.len() as int;
        assert(listed(tools).subrange(at, at + pat.len()) =~= pat);
        assert(crate::text::occurs_at(listed(tools), pat, at));
    } else {
        lemma_listed_shows(tools.drop_last(), i);
        let at = choose|j: int| crate::text::occurs_at(front, pat, j);
        assert(listed(tools).subrange(at, at + pat.len()) =~= front.subrange(at, at + pat.len()));
        assert(crate::text::occurs_at(listed(tools), pat, at));
    }
}

/// What is shown ends with the text without its trailing white space, and what
/// stands before it is what is shown without any text: the tools alone decide
/// on it.
pub proof fn lemma_text_comes_last(
    tools: Seq<ToolEntry>,
    text: Seq<char>,
    streaming: bool,
    display: ToolDisplay,
)
    ensures
        composed(tools, text, streaming, display) == composed(
            tools,
            Seq::empty(),
            streaming,
            display,
        ) + crate::text::trim_end(text),
        tools.len() == 0 ==> composed(tools, text, streaming, display) == crate::text::trim_end(
            text,
        ),
{
    let none = Seq::<char>::empty();
    assert(crate::text::trim_end(none) == none);
    assert(composed(tools, none, streaming, display) =~= tool_block(tools, streaming, display));
    if tools.len() == 0 {
        assert(composed(tools, text, streaming, display) =~= crate::text::trim_end(text));
    }
}

/// The line of one tool, by its state.
pub open spec fn tool_line(tool: ToolEntry) -> Seq<char> {
    match tool.state {
        ToolState::Running => "🔧 `"@ + tool.title@ + "`...\n"@,
        ToolState::Completed => "✅ `"@ + tool.title@ + "`\n"@,
        ToolState::Failed => "❌ `"@ + tool.title@ + "`\n"@,
    }
}

proof fn lemma_tool_line(tool: ToolEntry)
    ensures
        rendered(tool) + "\n"@ == tool_line(tool),
{
    reveal_strlit("🔧");
    reveal_strlit("✅");
    reveal_strlit("❌");
    reveal_strlit(" `");
    reveal_strlit("`");
    reveal_strlit("...");
    reveal_strlit("\n");
    reveal_strlit("🔧 `");
    reveal_strlit("✅ `");
    reveal_strlit("❌ `");
    reveal_strlit("`...\n");
    reveal_strlit("`\n");
    assert(rendered(tool) + "\n"@ =~= tool_line(tool));
}

/// What is shown of the tools alone when a turn is over.
pub open spec fn shown_tools(tools: Seq<ToolEntry>) -> Seq<char> {
    composed(tools, Seq::empty(), false, ToolDisplay::Full)
}

proof fn lemma_shown_tools(tools: Seq<ToolEntry>)
    ensures
        shown_tools(tools) == if tools.len() == 0 {
            Seq::empty()
        } else {
            listed(tools) + "\n"@
        },
        tools.len() > 0 ==> listed(tools).len() > 0,
{
    reveal_strlit("\n");
    let none = Seq::<char>::empty();
    assert(crate::text::trim_end(none) == none);
    if tools.len() > 0 {
        assert(listed(tools).len() > 0);
        assert(shown_tools(tools) =~= listed(tools) + "\n"@);
    } else {
        assert(shown_tools(tools) =~= none);
    }
}

/// When a turn is over, each tool has its line, in the order of the tools, with
/// its complete title and the mark of its state, and an empty line follows the
/// last: one more tool adds its line behind those before it.
pub proof fn lemma_each_tool_has_its_line(tools: Seq<ToolEntry>, tool: ToolEntry)
    ensures
        shown_tools(Seq::empty()).len() == 0,
        shown_tools(seq![tool]) == tool_line(tool) + "\n"@,
        tools.len() > 0 ==> shown_tools(tools).len() > 0 && shown_tools(tools).last() == '\n'
            && shown_tools(tools.push(tool)) == shown_tools(tools).drop_last() + tool_line(tool)
            + "\n"@,
{
    reveal_strlit("\n");
    lemma_tool_line(tool);
    lemma_shown_tools(Seq::empty());
    lemma_shown_tools(seq![tool]);
    lemma_shown_tools(tools);
    lemma_shown_tools(tools.push(tool));
    assert(seq![tool].drop_last() =~= Seq::empty());
    assert(listed(seq![tool].drop_last()) =~= Seq::empty());
    assert(listed(seq![tool]) =~= tool_line(tool));
    assert(tools.push(tool).drop_last() =~= tools);
    if tools.len() > 0 {
        assert(shown_tools(tools).drop_last() =~= listed(tools));
        assert(listed(tools.push(tool)) =~= listed(tools) + tool_line(tool));
        assert(shown_tools(tools.push(tool)) =~= shown_tools(tools).drop_last() + tool_line(tool)
            + "\n"@);
    }
}

/// The tools in a state.
pub open spec fn in_state(tools: Seq<ToolEntry>, state: ToolState) -> Seq<ToolEntry> {
    tools.filter(|t: ToolEntry| t.state == state)
}

proof fn lemma_count_is_filter(tools: Seq<ToolEntry>, state: ToolState)
    ensures
        count(tools, state) == in_state(tools, state).len(),
    decreases tools.len(),
{
    reveal(Seq::filter);
    if tools.len() > 0 {
        lemma_count_is_filter(tools.drop_last(), state);
    }
}

proof fn lemma_picked_is_filter(tools: Seq<ToolEntry>)
    ensures
        picked(tools, true) == in_state(tools, ToolState::Running),
        picked(tools, false) == tools.filter(|t: ToolEntry| t.state != ToolState::Running),
    decreases tools.len(),
{
    reveal(Seq::filter);
    if tools.len() > 0 {
        lemma_picked_is_filter(tools.drop_last());
    }
}

/// The compact display counts the tools of each state and leaves out what is
/// zero.
pub proof fn lemma_compact_counts_states(tools: Seq<ToolEntry>, streaming: bool)
    ensures
        ({
            let shown = composed(tools, Seq::empty(), streaming, ToolDisplay::Compact);
            let d = in_state(tools, ToolState::Completed).len();
            let f = in_state(tools, ToolState::Failed).len();
            let r = in_state(tools, ToolState::Running).len();
            let done = "✅ "@ + crate::text::decimal(d);
            let failed = "❌ "@ + crate::text::decimal(f);
            let running = "🔧 "@ + crate::text::decimal(r);
            let end = " tool(s)\n\n"@;
            let dot = " · "@;
            &&& d + f + r == tools.len()
            &&& tools.len() == 0 ==> shown.len() == 0
            &&& d > 0 && f == 0 && r == 0 ==> shown == done + end
            &&& d == 0 && f > 0 && r == 0 ==> shown == failed + end
            &&& d == 0 && f == 0 && r > 0 ==> shown == running + end
            &&& d > 0 && f > 0 && r == 0 ==> shown == done + dot + failed + end
            &&& d > 0 && f == 0 && r > 0 ==> shown == done + dot + running + end
            &&& d == 0 && f > 0 && r > 0 ==> shown == failed + dot + running + end
            &&& d > 0 && f > 0 && r > 0 ==> shown == done + dot + failed + dot + running + end
        }),
{
    lemma_counts(tools);
    lemma_count_is_filter(tools, ToolState::Completed);
    lemma_count_is_filter(tools, ToolState::Failed);
    lemma_count_is_filter(tools, ToolState::Running);
    let d = count(tools, ToolState::Completed);
    let f = count(tools, ToolState::Failed);
    let r = count(tools, ToolState::Running);
    let none = Seq::<char>::empty();
    assert(crate::text::trim_end(none) == none);
    reveal_strlit("✅");
    reveal_strlit("❌");
    reveal_strlit("🔧");
    reveal_strlit("✅ ");
    reveal_strlit("❌ ");
    reveal_strlit("🔧 ");
    reveal_strlit(" ");
    reveal_strlit("\n");
    reveal_strlit(" tool(s)\n");
    reveal_strlit(" tool(s)\n\n");
    let done = counted("✅"@, d);
    let failed = counted("❌"@, f);
    let running = counted("🔧"@, r);
    assert(done =~= "✅ "@ + crate::text::decimal(d));
    assert(failed =~= "❌ "@ + crate::text::decimal(f));
    assert(running =~= "🔧 "@ + crate::text::decimal(r));
    let parts = tally(d, f, r);
    lemma_joined_few(done, failed, running);
    let dot = " · "@;
    let end = " tool(s)\n\n"@;
    let lines = compact_block(tools);
    let shown = composed(tools, none, streaming, ToolDisplay::Compact);
    if tools.len() > 0 {
        if d > 0 && f == 0 && r == 0 {
            assert(parts =~= seq![done]);
        } else if d == 0 && f > 0 && r == 0 {
            assert(parts =~= seq![failed]);
        } else if d == 0 && f == 0 && r > 0 {
            assert(parts =~= seq![running]);
        } else if d > 0 && f > 0 && r == 0 {
            assert(parts =~= seq![done, failed]);
            lemma_joined_few(done, failed, running);
        } else if d > 0 && f == 0 && r > 0 {
            assert(parts =~= seq![done, running]);
            lemma_joined_few(done, running, failed);
        } else if d == 0 && f > 0 && r > 0 {
            assert(parts =~= seq![failed, running]);
            lemma_joined_few(failed, running, done);
        } else {
            assert(parts =~= seq![done, failed, running]);
        }
        assert(shown =~= crate::text::joined(parts, dot) + end);
    } else {
        assert(shown =~= none);
    }
}

proof fn lemma_joined_few(a: Seq<char>, b: Seq<char>, c: Seq<char>)
    ensures
        crate::text::joined(seq![a], " · "@) == a,
        crate::text::joined(seq![a, b], " · "@) == a + " · "@ + b,
        crate::text::joined(seq![a, b, c], " · "@) == a + " · "@ + b + " · "@ + c,
{
    assert(seq![a, b].drop_last() =~= seq![a]);
    assert(seq![a, b, c].drop_last() =~= seq![a, b]);
    assert(crate::text::joined(seq![a, b], " · "@) == crate::text::joined(seq![a], " · "@) + " · "@
        + b);
}

/// The lines of tools without the empty line behind them.
pub open spec fn tool_lines(tools: Seq<ToolEntry>) -> Seq<char> {
    if tools.len() == 0 {
        Seq::empty()
    } else {
        shown_tools(tools).drop_last()
    }
}

/// While a turn streams, the tools that ended come first and those that run
/// follow; up to three of each have their lines. More that ended are counted;
/// of more that run, the last three have their lines and the others are counted.
pub proof fn lemma_streaming_shows_ended_then_running(tools: Seq<ToolEntry>)
    requires
        tools.len() > 0,
    ensures
        ({
            let shown = composed(tools, Seq::empty(), true, ToolDisplay::Full);
            let ended = tools.filter(|t: ToolEntry| t.state != ToolState::Running);
            let running = in_state(tools, ToolState::Running);
            let d = in_state(tools, ToolState::Completed).len();
            let f = in_state(tools, ToolState::Failed).len();
            let done = "✅ "@ + crate::text::decimal(d);
            let failed = "❌ "@ + crate::text::decimal(f);
            let first = if ended.len() <= 3 {
                tool_lines(ended)
            } else if f == 0 {
                done + " tool(s) completed\n"@
            } else if d == 0 {
                failed + " tool(s) completed\n"@
            } else {
                done + " · "@ + failed + " tool(s) completed\n"@
            };
            let second = if running.len() <= 3 {
                tool_lines(running)
            } else {
                "🔧 "@ + crate::text::decimal((running.len() - 3) as nat) + " more running\n"@
                    + tool_lines(running.skip(running.len() - 3))
            };
            shown == first + second + "\n"@
        }),
{
    lemma_counts(tools);
    lemma_count_is_filter(tools, ToolState::Completed);
    lemma_count_is_filter(tools, ToolState::Failed);
    lemma_count_is_filter(tools, ToolState::Running);
    lemma_picked_is_filter(tools);
    lemma_picked_counts(tools);
    let d = count(tools, ToolState::Completed);
    let f = count(tools, ToolState::Failed);
    let ended = picked(tools, false);
    let running = picked(tools, true);
    reveal_strlit("✅");
    reveal_strlit("❌");
    reveal_strlit("✅ ");
    reveal_strlit("❌ ");
    reveal_strlit(" ");
    reveal_strlit("\n");
    reveal_strlit(" more running\n");
    reveal_strlit(" tool(s) completed\n");
    let none = Seq::<char>::empty();
    assert(crate::text::trim_end(none) == none);
    let done = counted("✅"@, d);
    let failed = counted("❌"@, f);
    assert(done =~= "✅ "@ + crate::text::decimal(d));
    assert(failed =~= "❌ "@ + crate::text::decimal(f));
    lemma_joined_few(done, failed, done);
    lemma_joined_few(failed, done, done);
    lemma_tool_lines(ended);
    lemma_tool_lines(running);
    if running.len() > 3 {
        lemma_tool_lines(running.skip(running.len() - 3));
    }
    let parts = tally(d, f, 0);
    if ended.len() > 3 {
        if f == 0 {
            assert(parts =~= seq![done]);
        } else if d == 0 {
            assert(parts =~= seq![failed]);
        } else {
            assert(parts =~= seq![done, failed]);
        }
    }
    assert(streaming_block(tools).len() > 0);
    assert(composed(tools, none, true, ToolDisplay::Full) =~= streaming_block(tools) + "\n"@);
}

proof fn lemma_tool_lines(tools: Seq<ToolEntry>)
    ensures
        tool_lines(tools) == listed(tools),
        tools.len() > 0 ==> listed(tools).len() > 0,
{
    reveal_strlit("\n");
    lemma_shown_tools(tools);
    if tools.len() > 0 {
        assert(shown_tools(tools).drop_last() =~= listed(tools));
    }
}

proof fn lemma_picked_counts(tools: Seq<ToolEntry>)
    ensures
        picked(tools, false).len() == count(tools, ToolState::Completed) + count(
            tools,
            ToolState::Failed,
        ),
    decreases tools.len(),
{
    if tools.len() > 0 {
        lemma_picked_counts(tools.drop_last());
    }
}

/// Flattening works on each character by itself: what is put together from two
/// titles is flattened to what the two are flattened to.
pub proof fn lemma_titles_are_flattened_by_character(a: Seq<char>, c: char)
    ensures
        flat_title(Seq::empty()).len() == 0,
        c == '\r' ==> flat_title(a.push(c)) == flat_title(a),
        c == '\n' ==> flat_title(a.push(c)) == flat_title(a) + seq![' ', ';', ' '],
        c == '`' ==> flat_title(a.push(c)) == flat_title(a).push('\''),
        c != '\r' && c != '\n' && c != '`' ==> flat_title(a.push(c)) == flat_title(a).push(c),
{
    reveal_strlit(" ; ");
    assert(a.push(c).drop_last() =~= a);
    assert(" ; "@ =~= seq![' ', ';', ' ']);
}

} // verus!
