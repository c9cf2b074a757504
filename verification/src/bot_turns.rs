//! Bot turns per thread, for the prevention of runaway loops.
//!
//! The limit is a rate, not a total: only messages within the window count. A
//! flood trips the limit and keeps it tripped; a slow loop never does; once the
//! flood stops, the thread recovers by itself. A human message clears a thread
//! at once.

use vstd::prelude::*;

use crate::text::{push_decimal, same_str};
use crate::time::{Clock, Duration, Instant};

verus! {

/// Absolute cap on bot turns per thread within the window.
pub const HARD_BOT_TURN_LIMIT: u32 = 1000;

/// How far back the counter looks, in seconds: ten minutes.
pub const DEFAULT_WINDOW_SECS: u64 = 600;

/// With this every bot turn limit warning begins.
pub const BOT_TURN_LIMIT_WARNING_PREFIX: &'static str = "⚠️ Bot turn limit reached";

/// What a bot message means for its thread.
#[derive(Debug, Clone, Copy, PartialEq, Eq, Structural)]
pub enum TurnResult {
    /// Below the limits.
    Allowed,
    /// At the soft limit: warn once, then stop.
    SoftLimit(u32),
    /// Above the soft limit: stop silently.
    Throttled,
    /// At the hard limit: warn once, then stop.
    HardLimit,
    /// Above the hard limit: stop silently.
    Stopped,
}

/// Log severity of a warning.
#[derive(Debug, Clone, Copy, PartialEq, Eq, Structural)]
pub enum TurnSeverity {
    Soft,
    Hard,
}

/// What an adapter does with a bot message.
#[derive(Debug, PartialEq, Eq)]
pub enum TurnAction {
    /// Process it.
    Continue,
    /// Stop, and tell the thread why.
    WarnAndStop { severity: TurnSeverity, turns: u32, user_message: String },
    /// Stop; the thread was told before.
    SilentStop,
}

/// The action with its message as text.
pub enum ActionView {
    Continue,
    WarnAndStop { severity: TurnSeverity, turns: u32, user_message: Seq<char> },
    SilentStop,
}

impl View for TurnAction {
    type V = ActionView;

    open spec fn view(&self) -> ActionView {
        match self {
            TurnAction::Continue => ActionView::Continue,
            TurnAction::WarnAndStop { severity, turns, user_message } => ActionView::WarnAndStop {
                severity: *severity,
                turns: *turns,
                user_message: user_message@,
            },
            TurnAction::SilentStop => ActionView::SilentStop,
        }
    }
}

impl Clone for TurnAction {
    fn clone(&self) -> (r: Self)
        ensures
            r@ == self@,
    {
        match self {
            TurnAction::Continue => TurnAction::Continue,
            TurnAction::WarnAndStop { severity, turns, user_message } => TurnAction::WarnAndStop {
                severity: *severity,
                turns: *turns,
                user_message: user_message.clone(),
            },
            TurnAction::SilentStop => TurnAction::SilentStop,
        }
    }
}

// ---------------------------------------------------------------------------
// Counting
// ---------------------------------------------------------------------------

/// The arrivals that lie less than `window` before `now`, in order.
pub open spec fn fresh(arrivals: Seq<nat>, now: nat, window: nat) -> Seq<nat>
    decreases arrivals.len(),
{
    if arrivals.len() == 0 {
        Seq::empty()
    } else {
        let front = fresh(arrivals.drop_last(), now, window);
        if crate::time::since(now, arrivals.last()) < window {
            front.push(arrivals.last())
        } else {
            front
        }
    }
}

/// The latest arrivals, so many that one more makes the hard limit.
pub open spec fn capped(arrivals: Seq<nat>) -> Seq<nat> {
    if arrivals.len() < HARD_BOT_TURN_LIMIT {
        arrivals
    } else {
        arrivals.skip(arrivals.len() - (HARD_BOT_TURN_LIMIT - 1))
    }
}

/// What the `n`th bot message within the window means. The hard limit takes
/// precedence over the soft one.
pub open spec fn verdict(n: nat, soft_limit: u32) -> TurnResult {
    if n > HARD_BOT_TURN_LIMIT {
        TurnResult::Stopped
    } else if n == HARD_BOT_TURN_LIMIT {
        TurnResult::HardLimit
    } else if n > soft_limit {
        TurnResult::Throttled
    } else if n == soft_limit {
        TurnResult::SoftLimit(n as u32)
    } else {
        TurnResult::Allowed
    }
}

/// The warning that the thread sees.
pub open spec fn warning(result: TurnResult, window: Duration) -> Seq<char> {
    let tail = " minutes). Bot-to-bot messages resume once the rate falls, or immediately if a human replies here."@;
    match result {
        TurnResult::SoftLimit(n) => BOT_TURN_LIMIT_WARNING_PREFIX@ + " ("@ + crate::text::decimal(
            n as nat,
        ) + " messages in "@ + crate::text::decimal((window.secs / 60) as nat) + tail,
        _ => "🛑 Hard bot turn limit reached ("@ + crate::text::decimal(
            HARD_BOT_TURN_LIMIT as nat,
        ) + " messages in "@ + crate::text::decimal((window.secs / 60) as nat) + tail,
    }
}

/// What an adapter does: it warns at a limit and is silent above it.
pub open spec fn action(result: TurnResult, window: Duration) -> ActionView {
    match result {
        TurnResult::Allowed => ActionView::Continue,
        TurnResult::SoftLimit(n) => ActionView::WarnAndStop {
            severity: TurnSeverity::Soft,
            turns: n,
            user_message: warning(result, window),
        },
        TurnResult::HardLimit => ActionView::WarnAndStop {
            severity: TurnSeverity::Hard,
            turns: HARD_BOT_TURN_LIMIT,
            user_message: warning(result, window),
        },
        TurnResult::Throttled | TurnResult::Stopped => ActionView::SilentStop,
    }
}

// ---------------------------------------------------------------------------
// The tracker
// ---------------------------------------------------------------------------

/// The recent bot messages of one thread, oldest first.
#[derive(Debug)]
struct Thread {
    id: String,
    arrivals: Vec<Instant>,
}

spec fn times(arrivals: Seq<Instant>) -> Seq<nat> {
    arrivals.map_values(|at: Instant| at.nanos as nat)
}

spec fn lookup(threads: Seq<Thread>, id: Seq<char>) -> Seq<nat>
    decreases threads.len(),
{
    if threads.len() == 0 {
        Seq::empty()
    } else if threads.last().id@ == id {
        times(threads.last().arrivals@)
    } else {
        lookup(threads.drop_last(), id)
    }
}

spec fn listed(threads: Seq<Thread>, id: Seq<char>) -> bool {
    exists|i: int| 0 <= i < threads.len() && (#[trigger] threads[i]).id@ == id
}

spec fn threads_ok(threads: Seq<Thread>) -> bool {
    &&& forall|i: int, j: int|
        0 <= i < j < threads.len() ==> (#[trigger] threads[i]).id@ != (#[trigger] threads[j]).id@
    &&& forall|i: int|
        0 <= i < threads.len() ==> 0 < (#[trigger] threads[i]).arrivals@.len()
            <= HARD_BOT_TURN_LIMIT
}

proof fn lemma_lookup_absent(threads: Seq<Thread>, id: Seq<char>)
    requires
        !listed(threads, id),
    ensures
        lookup(threads, id) == Seq::<nat>::empty(),
    decreases threads.len(),
{
    if threads.len() > 0 {
        assert(threads[threads.len() - 1].id@ != id);
        assert forall|i: int| 0 <= i < threads.drop_last().len() implies (
        #[trigger] threads.drop_last()[i]).id@ != id by {
            assert(threads[i].id@ != id);
        }
        lemma_lookup_absent(threads.drop_last(), id);
    }
}

proof fn lemma_lookup_present(threads: Seq<Thread>, id: Seq<char>, i: int)
    requires
        threads_ok(threads),
        0 <= i < threads.len(),
        threads[i].id@ == id,
    ensures
        lookup(threads, id) == times(threads[i].arrivals@),
    decreases threads.len(),
{
    if i < threads.len() - 1 {
        assert(threads[i].id@ != threads[threads.len() - 1].id@);
        assert(threads_ok(threads.drop_last())) by {
            assert forall|a: int, b: int| 0 <= a < b < threads.drop_last().len() implies (
            #[trigger] threads.drop_last()[a]).id@ != (#[trigger] threads.drop_last()[b]).id@ by {
                assert(threads[a].id@ != threads[b].id@);
            }
            assert forall|a: int| 0 <= a < threads.drop_last().len() implies 0 < (
            #[trigger] threads.drop_last()[a]).arrivals@.len() <= HARD_BOT_TURN_LIMIT by {
                assert(threads[a].arrivals@.len() > 0);
            }
        }
        lemma_lookup_present(threads.drop_last(), id, i);
    }
}

fn keep_fresh(arrivals: &Vec<Instant>, now: Instant, window: Duration) -> (r: Vec<Instant>)
    ensures
        times(r@) == fresh(times(arrivals@), now.nanos as nat, window.in_nanos()),
        r@.len() <= arrivals@.len(),
{
    let limit = window.as_nanos();
    let mut out: Vec<Instant> = Vec::new();
    let mut i: usize = 0;
    while i < arrivals.len()
        invariant
            i <= arrivals.len(),
            limit == window.in_nanos(),
            out@.len() <= i,
            times(out@) == fresh(
                times(arrivals@).take(i as int),
                now.nanos as nat,
                window.in_nanos(),
            ),
        decreases arrivals.len() - i,
    {
        assert(times(arrivals@).take(i + 1).drop_last() =~= times(arrivals@).take(i as int));
        if now.nanos_since(arrivals[i]) < limit {
            let ghost before = out@;
            out.push(arrivals[i]);
            assert(times(out@) =~= times(before).push(arrivals@[i as int].nanos as nat));
        }
        i += 1;
    }
    assert(times(arrivals@).take(arrivals@.len() as int) =~= times(arrivals@));
    out
}

spec fn kept_from(
    threads: Seq<Thread>,
    kept: Seq<Thread>,
    id: Seq<char>,
    now: nat,
    window: nat,
) -> bool {
    &&& threads_ok(kept)
    &&& !listed(kept, id)
    &&& forall|j: int| 0 <= j < kept.len() ==> listed(threads, (#[trigger] kept[j]).id@)
    &&& forall|t: Seq<char>|
        t != id ==> (#[trigger] lookup(kept, t)) == fresh(lookup(threads, t), now, window)
}

proof fn lemma_kept_step(
    threads: Seq<Thread>,
    i: int,
    kept_before: Seq<Thread>,
    kept: Seq<Thread>,
    id: Seq<char>,
    arrivals: Seq<Instant>,
    now: nat,
    window: nat,
)
    requires
        threads_ok(threads),
        0 <= i < threads.len(),
        kept_from(threads.take(i), kept_before, id, now, window),
        times(arrivals) == fresh(times(threads[i].arrivals@), now, window),
        arrivals.len() <= threads[i].arrivals@.len(),
        if threads[i].id@ == id || arrivals.len() == 0 {
            kept == kept_before
        } else {
            &&& kept.len() == kept_before.len() + 1
            &&& kept.drop_last() == kept_before
            &&& kept.last().id@ == threads[i].id@
            &&& kept.last().arrivals@ == arrivals
        },
    ensures
        kept_from(threads.take(i + 1), kept, id, now, window),
{
    let before = threads.take(i);
    let after = threads.take(i + 1);
    let here = threads[i];
    assert(after.drop_last() =~= before);
    assert(after.last() == here);
    assert(times(arrivals).len() == arrivals.len());
    assert forall|j: int| 0 <= j < kept_before.len() implies listed(
        after,
        (#[trigger] kept_before[j]).id@,
    ) && kept_before[j].id@ != here.id@ by {
        assert(listed(before, kept_before[j].id@));
        let k = choose|k: int|
            0 <= k < before.len() && (#[trigger] before[k]).id@ == kept_before[j].id@;
        assert(after[k].id@ == kept_before[j].id@);
        assert(threads[k].id@ != threads[i].id@);
    }
    assert(!listed(kept_before, here.id@));
    lemma_lookup_absent(kept_before, here.id@);
    assert(after[i].id@ == here.id@);
    if kept.len() > kept_before.len() {
        assert forall|j: int| 0 <= j < kept_before.len() implies #[trigger] kept[j]
            == kept_before[j] by {
            assert(kept.drop_last()[j] == kept[j]);
        }
        assert(kept[kept.len() - 1] == kept.last());
    }
    assert forall|t: Seq<char>| t != id implies (#[trigger] lookup(kept, t)) == fresh(
        lookup(after, t),
        now,
        window,
    ) by {
        assert(lookup(kept_before, t) == fresh(lookup(before, t), now, window));
        if t == here.id@ {
            assert(lookup(after, t) == times(here.arrivals@));
            if arrivals.len() == 0 {
                assert(times(arrivals) =~= Seq::<nat>::empty());
            }
        } else {
            assert(lookup(after, t) == lookup(before, t));
        }
    }
}

/// Drops what lies outside the window, and takes one thread's messages out.
fn part(threads: &Vec<Thread>, thread_id: &str, now: Instant, window: Duration) -> (r: (
    Vec<Instant>,
    Vec<Thread>,
))
    requires
        threads_ok(threads@),
    ensures
        r.0@.len() <= HARD_BOT_TURN_LIMIT,
        times(r.0@) == fresh(lookup(threads@, thread_id@), now.nanos as nat, window.in_nanos()),
        kept_from(threads@, r.1@, thread_id@, now.nanos as nat, window.in_nanos()),
{
    let ghost at = now.nanos as nat;
    let ghost w = window.in_nanos();
    let mut kept: Vec<Thread> = Vec::new();
    let mut mine: Vec<Instant> = Vec::new();
    let mut i: usize = 0;
    assert(times(mine@) =~= Seq::empty());
    while i < threads.len()
        invariant
            i <= threads.len(),
            threads_ok(threads@),
            at == now.nanos,
            w == window.in_nanos(),
            mine@.len() <= HARD_BOT_TURN_LIMIT,
            times(mine@) == fresh(lookup(threads@.take(i as int), thread_id@), at, w),
            kept_from(threads@.take(i as int), kept@, thread_id@, at, w),
        decreases threads.len() - i,
    {
        let ghost before = threads@.take(i as int);
        let ghost here = threads@[i as int];
        proof {
            assert(threads@.take(i + 1).drop_last() =~= before);
            assert(threads@.take(i + 1).last() == here);
            assert(!listed(before, here.id@)) by {
                assert forall|j: int| 0 <= j < before.len() implies (#[trigger] before[j]).id@
                    != here.id@ by {
                    assert(threads@[j].id@ != threads@[i as int].id@);
                }
            }
            lemma_lookup_absent(before, here.id@);
            assert(here.arrivals@.len() <= HARD_BOT_TURN_LIMIT);
        }
        let arrivals = keep_fresh(&threads[i].arrivals, now, window);
        let ghost arrivals_kept = arrivals@;
        let ghost kept_before = kept@;
        if same_str(threads[i].id.as_str(), thread_id) {
            mine = arrivals;
        } else if arrivals.len() > 0 {
            kept.push(Thread { id: threads[i].id.clone(), arrivals });
            assert(kept@.drop_last() =~= kept_before);
        }
        proof {
            lemma_kept_step(threads@, i as int, kept_before, kept@, thread_id@, arrivals_kept, at, w);
        }
        i += 1;
    }
    assert(threads@.take(threads@.len() as int) =~= threads@);
    (mine, kept)
}

/// Counts bot messages per thread.
#[derive(Debug)]
pub struct BotTurnTracker {
    soft_limit: u32,
    window: Duration,
    recent: Vec<Thread>,
    clock: Clock,
}

impl BotTurnTracker {
    pub closed spec fn soft_limit(&self) -> u32 {
        self.soft_limit
    }

    pub closed spec fn window(&self) -> Duration {
        self.window
    }

    /// The bot messages of a thread that are remembered, oldest first, in
    /// nanoseconds.
    pub closed spec fn arrivals(&self, thread_id: Seq<char>) -> Seq<nat> {
        lookup(self.recent@, thread_id)
    }

    /// The thread takes up room.
    pub closed spec fn occupies(&self, thread_id: Seq<char>) -> bool {
        listed(self.recent@, thread_id)
    }

    /// Each thread is remembered once, with at least one and at most so many
    /// messages as the hard limit says.
    #[verifier::type_invariant]
    pub closed spec fn wf(&self) -> bool {
        threads_ok(self.recent@)
    }

    /// What `wf` says of a thread: it takes up room exactly while messages of
    /// it are remembered, and never more than the hard limit.
    pub proof fn lemma_room(&self, thread_id: Seq<char>)
        requires
            self.wf(),
        ensures
            self.occupies(thread_id) <==> self.arrivals(thread_id).len() > 0,
            self.arrivals(thread_id).len() <= HARD_BOT_TURN_LIMIT,
    {
        if listed(self.recent@, thread_id) {
            let i = choose|i: int|
                0 <= i < self.recent@.len() && (#[trigger] self.recent@[i]).id@ == thread_id;
            lemma_lookup_present(self.recent@, thread_id, i);
        } else {
            lemma_lookup_absent(self.recent@, thread_id);
        }
    }

    /// A tracker with the default window.
    pub fn new(soft_limit: u32) -> (r: Self)
        ensures
            r.wf(),
            r.soft_limit() == soft_limit,
            r.window() == (Duration { secs: DEFAULT_WINDOW_SECS, nanos: 0 }),
            forall|t: Seq<char>| (#[trigger] r.arrivals(t)) == Seq::<nat>::empty(),
    {
        Self::with_window(soft_limit, Duration::from_secs(DEFAULT_WINDOW_SECS))
    }

    /// A tracker that looks back over the given window.
    pub fn with_window(soft_limit: u32, window: Duration) -> (r: Self)
        ensures
            r.wf(),
            r.soft_limit() == soft_limit,
            r.window() == window,
            forall|t: Seq<char>| (#[trigger] r.arrivals(t)) == Seq::<nat>::empty(),
    {
        BotTurnTracker { soft_limit, window, recent: Vec::new(), clock: Clock::start() }
    }

    /// The present on the tracker's clock, for `on_bot_message_at`.
    pub fn now(&self) -> (r: Instant)
        ensures
            crate::time::in_clock_range(r),
    {
        self.clock.now()
    }

    /// The state after a bot message at `now`, and what it means.
    pub open spec fn stepped(&self, post: &Self, thread_id: Seq<char>, now: nat) -> bool {
        let w = self.window().in_nanos();
        &&& post.wf()
        &&& post.soft_limit() == self.soft_limit()
        &&& post.window() == self.window()
        &&& post.arrivals(thread_id) == capped(fresh(self.arrivals(thread_id), now, w)).push(now)
        &&& forall|t: Seq<char>|
            t != thread_id ==> (#[trigger] post.arrivals(t)) == fresh(self.arrivals(t), now, w)
    }

    /// The state after a human message.
    pub open spec fn cleared(&self, post: &Self, thread_id: Seq<char>) -> bool {
        &&& post.soft_limit() == self.soft_limit()
        &&& post.window() == self.window()
        &&& post.arrivals(thread_id) == Seq::<nat>::empty()
        &&& forall|t: Seq<char>|
            t != thread_id ==> (#[trigger] post.arrivals(t)) == self.arrivals(t)
    }

    /// What a bot message at `now` means, given what is remembered.
    pub open spec fn result_at(&self, thread_id: Seq<char>, now: nat) -> TurnResult {
        verdict(
            fresh(self.arrivals(thread_id), now, self.window().in_nanos()).len() + 1,
            self.soft_limit(),
        )
    }

    /// Counts a bot message that arrives now.
    pub fn on_bot_message(&mut self, thread_id: &str) -> (r: TurnResult)
        ensures
            exists|now: Instant|
                crate::time::in_clock_range(now) && old(self).stepped(
                    final(self),
                    thread_id@,
                    now.nanos as nat,
                ) && r == #[trigger] old(self).result_at(thread_id@, now.nanos as nat),
    {
        let now = self.clock.now();
        let r = self.on_bot_message_at(thread_id, now);
        assert(r == old(self).result_at(thread_id@, now.nanos as nat));
        r
    }

    /// Counts a bot message that arrives at `now`. What lies outside the window
    /// is forgotten, in every thread.
    pub fn on_bot_message_at(&mut self, thread_id: &str, now: Instant) -> (r: TurnResult)
        ensures
            old(self).stepped(final(self), thread_id@, now.nanos as nat),
            r == old(self).result_at(thread_id@, now.nanos as nat),
    {
        proof {
            use_type_invariant(&*self);
        }
        let ghost at = now.nanos as nat;
        let (mut mine, mut kept) = part(&self.recent, thread_id, now, self.window);
        let turns: usize = mine.len() + 1;
        let ghost all_mine = times(mine@);
        assert(all_mine.len() == mine@.len());
        if mine.len() >= HARD_BOT_TURN_LIMIT as usize {
            let tail = mine.split_off(mine.len() - (HARD_BOT_TURN_LIMIT as usize - 1));
            mine = tail;
        }
        assert(times(mine@) =~= capped(all_mine));
        mine.push(now);
        assert(times(mine@) =~= capped(all_mine).push(at));
        let ghost others = kept@;
        kept.push(Thread { id: thread_id.to_owned(), arrivals: mine });
        proof {
            assert(kept@.drop_last() =~= others);
            assert forall|j: int| 0 <= j < others.len() implies (#[trigger] others[j]).id@
                != thread_id@ by {}
            assert(threads_ok(kept@));
        }
        self.recent = kept;
        proof {
            assert forall|t: Seq<char>| t != thread_id@ implies (#[trigger] self.arrivals(t))
                == fresh(old(self).arrivals(t), at, old(self).window().in_nanos()) by {
                assert(lookup(self.recent@, t) == lookup(others, t));
            }
        }
        let n: u32 = turns as u32;
        if n > HARD_BOT_TURN_LIMIT {
            TurnResult::Stopped
        } else if n == HARD_BOT_TURN_LIMIT {
            TurnResult::HardLimit
        } else if n > self.soft_limit {
            TurnResult::Throttled
        } else if n == self.soft_limit {
            TurnResult::SoftLimit(n)
        } else {
            TurnResult::Allowed
        }
    }

    /// A human message clears its thread at once.
    pub fn on_human_message(&mut self, thread_id: &str)
        ensures
            final(self).wf(),
            final(self).soft_limit() == old(self).soft_limit(),
            final(self).window() == old(self).window(),
            final(self).arrivals(thread_id@) == Seq::<nat>::empty(),
            !final(self).occupies(thread_id@),
            forall|t: Seq<char>|
                t != thread_id@ ==> (#[trigger] final(self).arrivals(t)) == old(self).arrivals(t),
            old(self).cleared(final(self), thread_id@),
    {
        proof {
            use_type_invariant(&*self);
        }
        let ghost threads = self.recent@;
        let mut i: usize = 0;
        while i < self.recent.len()
            invariant
                i <= self.recent.len(),
                *self == *old(self),
                threads == self.recent@,
                threads_ok(threads),
                forall|j: int| 0 <= j < i ==> (#[trigger] threads[j]).id@ != thread_id@,
            decreases self.recent.len() - i,
        {
            if same_str(self.recent[i].id.as_str(), thread_id) {
                let mut rest = copy_threads(&self.recent);
                proof {
                    lemma_alike(threads, rest@);
                    lemma_removed(rest@, rest@.remove(i as int), i as int);
                }
                rest.remove(i);
                self.recent = rest;
                return;
            }
            i += 1;
        }
        proof {
            lemma_lookup_absent(threads, thread_id@);
        }
    }

    /// How many bot messages of a thread are remembered.
    pub fn remembered(&self, thread_id: &str) -> (r: usize)
        ensures
            r == self.arrivals(thread_id@).len(),
            r <= HARD_BOT_TURN_LIMIT,
    {
        proof {
            use_type_invariant(self);
        }
        let mut i: usize = 0;
        while i < self.recent.len()
            invariant
                i <= self.recent.len(),
                threads_ok(self.recent@),
                forall|j: int| 0 <= j < i ==> (#[trigger] self.recent@[j]).id@ != thread_id@,
            decreases self.recent.len() - i,
        {
            if same_str(self.recent[i].id.as_str(), thread_id) {
                proof {
                    lemma_lookup_present(self.recent@, thread_id@, i as int);
                }
                return self.recent[i].arrivals.len();
            }
            i += 1;
        }
        proof {
            lemma_lookup_absent(self.recent@, thread_id@);
        }
        0
    }

    /// Counts a bot message that arrives now and says what to do with it.
    pub fn classify_bot_message(&mut self, thread_id: &str) -> (r: TurnAction)
        ensures
            exists|now: Instant|
                crate::time::in_clock_range(now) && old(self).stepped(
                    final(self),
                    thread_id@,
                    now.nanos as nat,
                ) && r@ == action(
                    #[trigger] old(self).result_at(thread_id@, now.nanos as nat),
                    old(self).window(),
                ),
    {
        let now = self.clock.now();
        let r = self.classify_bot_message_at(thread_id, now);
        assert(r@ == action(
            old(self).result_at(thread_id@, now.nanos as nat),
            old(self).window(),
        ));
        r
    }

    /// Counts a bot message that arrives at `now` and says what to do with it.
    pub fn classify_bot_message_at(&mut self, thread_id: &str, now: Instant) -> (r: TurnAction)
        ensures
            old(self).stepped(final(self), thread_id@, now.nanos as nat),
            r@ == action(old(self).result_at(thread_id@, now.nanos as nat), old(self).window()),
    {
        let result = self.on_bot_message_at(thread_id, now);
        let minutes = self.window.as_secs() / 60;
        match result {
            TurnResult::Allowed => TurnAction::Continue,
            TurnResult::SoftLimit(n) => {
                let mut message = BOT_TURN_LIMIT_WARNING_PREFIX.to_owned();
                message.push_str(" (");
                push_decimal(&mut message, n as u64);
                push_warning_tail(&mut message, minutes);
                assert(message@ =~= warning(result, self.window));
                TurnAction::WarnAndStop {
                    severity: TurnSeverity::Soft,
                    turns: n,
                    user_message: message,
                }
            },
            TurnResult::HardLimit => {
                let mut message = "🛑 Hard bot turn limit reached (".to_owned();
                push_decimal(&mut message, HARD_BOT_TURN_LIMIT as u64);
                push_warning_tail(&mut message, minutes);
                assert(message@ =~= warning(result, self.window));
                TurnAction::WarnAndStop {
                    severity: TurnSeverity::Hard,
                    turns: HARD_BOT_TURN_LIMIT,
                    user_message: message,
                }
            },
            TurnResult::Throttled | TurnResult::Stopped => TurnAction::SilentStop,
        }
    }
}

fn push_warning_tail(message: &mut String, minutes: u64)
    ensures
        final(message)@ == old(message)@ + " messages in "@ + crate::text::decimal(minutes as nat)
            + " minutes). Bot-to-bot messages resume once the rate falls, or immediately if a human replies here."@,
{
    message.push_str(" messages in ");
    push_decimal(message, minutes);
    message.push_str(
        " minutes). Bot-to-bot messages resume once the rate falls, or immediately if a human replies here.",
    );
}

/// The same threads with the same messages.
spec fn alike(a: Seq<Thread>, b: Seq<Thread>) -> bool {
    &&& a.len() == b.len()
    &&& forall|i: int|
        0 <= i < a.len() ==> (#[trigger] a[i]).id@ == b[i].id@ && a[i].arrivals@ == b[i].arrivals@
}

fn copy_threads(threads: &Vec<Thread>) -> (r: Vec<Thread>)
    ensures
        alike(threads@, r@),
{
    let mut out: Vec<Thread> = Vec::new();
    let mut i: usize = 0;
    while i < threads.len()
        invariant
            i <= threads@.len(),
            alike(threads@.take(i as int), out@),
        decreases threads.len() - i,
    {
        let ghost before = out@;
        let arrivals = threads[i].arrivals.clone();
        assert(arrivals@ =~= threads@[i as int].arrivals@);
        out.push(Thread { id: threads[i].id.clone(), arrivals });
        i += 1;
        assert forall|j: int| 0 <= j < i implies (#[trigger] threads@.take(i as int)[j]).id@
            == out@[j].id@ && threads@.take(i as int)[j].arrivals@ == out@[j].arrivals@ by {
            if j < i - 1 {
                assert(threads@.take(i - 1)[j].id@ == before[j].id@);
            }
        }
    }
    assert(threads@.take(threads@.len() as int) =~= threads@);
    out
}

proof fn lemma_alike(a: Seq<Thread>, b: Seq<Thread>)
    requires
        alike(a, b),
        threads_ok(a),
    ensures
        threads_ok(b),
        forall|t: Seq<char>| (#[trigger] lookup(b, t)) == lookup(a, t),
{
    assert forall|i: int, j: int| 0 <= i < j < b.len() implies (#[trigger] b[i]).id@ != (
    #[trigger] b[j]).id@ by {
        assert(a[i].id@ != a[j].id@);
    }
    assert forall|i: int| 0 <= i < b.len() implies 0 < (#[trigger] b[i]).arrivals@.len()
        <= HARD_BOT_TURN_LIMIT by {
        assert(a[i].arrivals@.len() > 0);
    }
    assert forall|t: Seq<char>| (#[trigger] lookup(b, t)) == lookup(a, t) by {
        lemma_alike_lookup(a, b, t);
    }
}

proof fn lemma_alike_lookup(a: Seq<Thread>, b: Seq<Thread>, id: Seq<char>)
    requires
        alike(a, b),
    ensures
        lookup(a, id) == lookup(b, id),
    decreases a.len(),
{
    if a.len() > 0 {
        assert(a[a.len() - 1].id@ == b[b.len() - 1].id@);
        assert forall|i: int| 0 <= i < a.drop_last().len() implies (#[trigger] a.drop_last()[i]).id@
            == b.drop_last()[i].id@ && a.drop_last()[i].arrivals@ == b.drop_last()[i].arrivals@ by {
            assert(a[i].id@ == b[i].id@);
        }
        lemma_alike_lookup(a.drop_last(), b.drop_last(), id);
    }
}

proof fn lemma_removed(before: Seq<Thread>, after: Seq<Thread>, i: int)
    requires
        threads_ok(before),
        0 <= i < before.len(),
        after == before.remove(i),
    ensures
        threads_ok(after),
        !listed(after, before[i].id@),
        lookup(after, before[i].id@) == Seq::<nat>::empty(),
        forall|t: Seq<char>| t != before[i].id@ ==> (#[trigger] lookup(after, t)) == lookup(before, t),
{
    let place = |j: int| if j < i { j } else { j + 1 };
    assert forall|j: int| 0 <= j < after.len() implies after[j] == before[#[trigger] place(j)] by {}
    assert forall|a: int, b: int| 0 <= a < b < after.len() implies (#[trigger] after[a]).id@ != (
    #[trigger] after[b]).id@ by {
        assert(after[a] == before[place(a)] && after[b] == before[place(b)]);
        assert(before[place(a)].id@ != before[place(b)].id@);
    }
    assert forall|a: int| 0 <= a < after.len() implies 0 < (#[trigger] after[a]).arrivals@.len()
        <= HARD_BOT_TURN_LIMIT by {
        assert(after[a] == before[place(a)]);
    }
    assert forall|j: int| 0 <= j < after.len() implies (#[trigger] after[j]).id@ != before[i].id@ by {
        assert(after[j] == before[place(j)]);
        assert(before[place(j)].id@ != before[i].id@);
    }
    lemma_lookup_absent(after, before[i].id@);
    assert forall|t: Seq<char>| t != before[i].id@ implies (#[trigger] lookup(after, t)) == lookup(
        before,
        t,
    ) by {
        if listed(after, t) {
            let j = choose|j: int| 0 <= j < after.len() && (#[trigger] after[j]).id@ == t;
            lemma_lookup_present(after, t, j);
            assert(after[j] == before[place(j)]);
            lemma_lookup_present(before, t, place(j));
        } else {
            lemma_lookup_absent(after, t);
            assert forall|k: int| 0 <= k < before.len() implies (#[trigger] before[k]).id@ != t by {
                if k < i {
                    assert(after[k] == before[k]);
                } else if k > i {
                    assert(after[k - 1] == before[k]);
                }
            }
            lemma_lookup_absent(before, t);
        }
    }
}

// ---------------------------------------------------------------------------
// What holds of every run
// ---------------------------------------------------------------------------

/// The points do not go back in time.
pub open spec fn in_order(times: Seq<nat>) -> bool {
    forall|i: int, j: int| 0 <= i <= j < times.len() ==> times[i] <= times[j]
}

/// What is remembered of a thread at `now` stands for its whole history: it is
/// the latest part of it, and what is missing lies outside the window or is
/// more than the hard limit needs.
pub open spec fn stands_for(kept: Seq<nat>, history: Seq<nat>, now: nat, window: nat) -> bool {
    let gone = history.len() - kept.len();
    &&& in_order(history)
    &&& forall|i: int| 0 <= i < history.len() ==> history[i] <= now
    &&& gone >= 0
    &&& kept == history.skip(gone)
    &&& kept.len() < HARD_BOT_TURN_LIMIT ==> forall|i: int|
        0 <= i < gone ==> crate::time::since(now, #[trigger] history[i]) >= window
}

/// Where the window begins in a history that is in order.
proof fn lemma_fresh_is_suffix(times: Seq<nat>, now: nat, window: nat) -> (k: int)
    requires
        in_order(times),
    ensures
        0 <= k <= times.len(),
        fresh(times, now, window) == times.skip(k),
        forall|i: int| 0 <= i < k ==> crate::time::since(now, #[trigger] times[i]) >= window,
        forall|i: int|
            k <= i < times.len() ==> crate::time::since(now, #[trigger] times[i]) < window,
    decreases times.len(),
{
    if times.len() == 0 {
        assert(times.skip(0) =~= Seq::<nat>::empty());
        0
    } else {
        let front = times.drop_last();
        assert forall|i: int, j: int| 0 <= i <= j < front.len() implies front[i] <= front[j] by {
            assert(times[i] <= times[j]);
        }
        let k = lemma_fresh_is_suffix(front, now, window);
        assert forall|i: int| 0 <= i < front.len() implies #[trigger] times[i] == front[i] by {}
        if crate::time::since(now, times.last()) < window {
            assert(fresh(times, now, window) =~= times.skip(k));
            k
        } else {
            if k < front.len() {
                assert(crate::time::since(now, front[k]) < window);
                assert(times[k] <= times[times.len() - 1]);
                assert(false);
            }
            assert(fresh(times, now, window) =~= times.skip(times.len() as int));
            times.len() as int
        }
    }
}

/// What is remembered gives the same verdict on the next message as the whole
/// history would: the limit is a rate over the window.
pub proof fn lemma_same_verdict(
    kept: Seq<nat>,
    history: Seq<nat>,
    then: nat,
    now: nat,
    window: nat,
    soft_limit: u32,
)
    requires
        stands_for(kept, history, then, window),
        then <= now,
    ensures
        verdict(fresh(kept, now, window).len() + 1, soft_limit) == verdict(
            fresh(history, now, window).len() + 1,
            soft_limit,
        ),
{
    let gone = history.len() - kept.len();
    lemma_suffix_in_order(history, gone);
    let k = lemma_fresh_is_suffix(kept, now, window);
    let h = lemma_fresh_is_suffix(history, now, window);
    if kept.len() < HARD_BOT_TURN_LIMIT || k > 0 {
        assert(h == gone + k) by {
            if h < gone + k {
                assert(crate::time::since(now, history[h]) < window);
                if h < gone {
                    if k > 0 {
                        assert(crate::time::since(now, kept[0]) >= window);
                        assert(history[h] <= history[gone]);
                    } else {
                        assert(crate::time::since(then, history[h]) >= window);
                    }
                } else {
                    assert(kept[h - gone] == history[h]);
                    assert(crate::time::since(now, kept[h - gone]) >= window);
                }
            } else if h > gone + k {
                assert(kept[k] == history[gone + k]);
                assert(crate::time::since(now, kept[k]) < window);
                assert(crate::time::since(now, history[gone + k]) >= window);
            }
        }
    } else {
        assert(h <= gone) by {
            if h > gone {
                assert(kept[0] == history[gone]);
                assert(crate::time::since(now, kept[0]) < window);
                assert(crate::time::since(now, history[gone]) >= window);
            }
        }
    }
}

proof fn lemma_suffix_in_order(times: Seq<nat>, k: int)
    requires
        in_order(times),
        0 <= k <= times.len(),
    ensures
        in_order(times.skip(k)),
{
    assert forall|i: int, j: int| 0 <= i <= j < times.skip(k).len() implies times.skip(k)[i]
        <= times.skip(k)[j] by {
        assert(times[i + k] <= times[j + k]);
    }
}

/// Forgetting what the window has passed keeps the history represented.
pub proof fn lemma_forgetting_is_safe(
    kept: Seq<nat>,
    history: Seq<nat>,
    then: nat,
    now: nat,
    window: nat,
)
    requires
        stands_for(kept, history, then, window),
        then <= now,
    ensures
        stands_for(fresh(kept, now, window), history, now, window),
{
    let gone = history.len() - kept.len();
    lemma_suffix_in_order(history, gone);
    let k = lemma_fresh_is_suffix(kept, now, window);
    let left = fresh(kept, now, window);
    assert(left =~= history.skip(gone + k));
    if left.len() < HARD_BOT_TURN_LIMIT {
        assert forall|i: int| 0 <= i < gone + k implies crate::time::since(
            now,
            #[trigger] history[i],
        ) >= window by {
            if i >= gone {
                assert(kept[i - gone] == history[i]);
            } else if kept.len() < HARD_BOT_TURN_LIMIT {
                assert(crate::time::since(then, history[i]) >= window);
            } else {
                assert(crate::time::since(now, kept[0]) >= window);
                assert(history[i] <= history[gone]);
            }
        }
    }
}

/// A bot message keeps the history of its thread represented.
pub proof fn lemma_message_is_remembered(
    kept: Seq<nat>,
    history: Seq<nat>,
    then: nat,
    now: nat,
    window: nat,
)
    requires
        stands_for(kept, history, then, window),
        then <= now,
    ensures
        stands_for(
            capped(fresh(kept, now, window)).push(now),
            history.push(now),
            now,
            window,
        ),
{
    lemma_forgetting_is_safe(kept, history, then, now, window);
    let left = fresh(kept, now, window);
    let short = capped(left);
    let gone = history.len() - left.len();
    let more = left.len() - short.len();
    let all = history.push(now);
    assert(short.push(now) =~= all.skip(gone + more));
    assert forall|i: int, j: int| 0 <= i <= j < all.len() implies all[i] <= all[j] by {
        if j < history.len() {
            assert(history[i] <= history[j]);
        } else if i < history.len() {
            assert(history[i] <= now);
        }
    }
    if short.push(now).len() < HARD_BOT_TURN_LIMIT {
        assert(more == 0);
        assert forall|i: int| 0 <= i < gone implies crate::time::since(now, #[trigger] all[i])
            >= window by {
            assert(all[i] == history[i]);
        }
    }
}

/// A thread that a human has just cleared, or that is new, is represented.
pub proof fn lemma_cleared_thread(now: nat, window: nat)
    ensures
        stands_for(Seq::empty(), Seq::empty(), now, window),
{
    assert(Seq::<nat>::empty().skip(0) =~= Seq::<nat>::empty());
}

/// The limit is a rate, not a total: however many messages lie outside the
/// window, they do not matter.
pub proof fn lemma_rate_not_total(past: Seq<nat>, recent: Seq<nat>, now: nat, window: nat)
    requires
        forall|i: int|
            0 <= i < past.len() ==> crate::time::since(now, #[trigger] past[i]) >= window,
    ensures
        fresh(past + recent, now, window) == fresh(recent, now, window),
    decreases recent.len(),
{
    if recent.len() == 0 {
        assert(past + recent =~= past);
        lemma_all_passed(past, now, window);
    } else {
        assert((past + recent).drop_last() =~= past + recent.drop_last());
        lemma_rate_not_total(past, recent.drop_last(), now, window);
    }
}

/// A thread recovers by itself: once the window has passed every message of
/// it, the next one is the first again.
pub proof fn lemma_all_passed(past: Seq<nat>, now: nat, window: nat)
    requires
        forall|i: int|
            0 <= i < past.len() ==> crate::time::since(now, #[trigger] past[i]) >= window,
    ensures
        fresh(past, now, window) == Seq::<nat>::empty(),
    decreases past.len(),
{
    if past.len() > 0 {
        assert(crate::time::since(now, past[past.len() - 1]) >= window);
        assert forall|i: int| 0 <= i < past.drop_last().len() implies crate::time::since(
            now,
            #[trigger] past.drop_last()[i],
        ) >= window by {
            assert(past[i] == past.drop_last()[i]);
        }
        lemma_all_passed(past.drop_last(), now, window);
    }
}

/// A flood stays tripped, and is warned of once: while nothing leaves the
/// window, a message after one that was not allowed is not allowed, and only
/// the hard limit speaks up again.
pub proof fn lemma_flood_stays_tripped(n: nat, later: nat, soft_limit: u32)
    requires
        n >= 1,
        !(verdict(n, soft_limit) is Allowed),
        later > n,
    ensures
        verdict(later, soft_limit) is Throttled || verdict(later, soft_limit) is HardLimit
            || verdict(later, soft_limit) is Stopped,
        later != HARD_BOT_TURN_LIMIT ==> forall|window: Duration| (#[trigger] action(
            verdict(later, soft_limit),
            window,
        )) == ActionView::SilentStop,
{
}

/// The number that the `k`th message of a history has within the window.
pub open spec fn turn_number(history: Seq<nat>, k: int, window: nat) -> nat {
    fresh(history.take(k), history[k], window).len() + 1
}

/// What an adapter does with the `k`th message of a history.
pub open spec fn action_at(history: Seq<nat>, k: int, window: Duration, soft_limit: u32) -> ActionView {
    action(verdict(turn_number(history, k, window.in_nanos()), soft_limit), window)
}

proof fn lemma_later_is_fewer(times: Seq<nat>, now: nat, later: nat, window: nat)
    requires
        now <= later,
    ensures
        fresh(times, later, window).len() <= fresh(times, now, window).len(),
    decreases times.len(),
{
    if times.len() > 0 {
        lemma_later_is_fewer(times.drop_last(), now, later, window);
    }
}

proof fn lemma_numbers_rise_by_one(history: Seq<nat>, k: int, window: nat)
    requires
        in_order(history),
        0 <= k < history.len() - 1,
    ensures
        turn_number(history, k + 1, window) <= turn_number(history, k, window) + 1,
{
    assert(history.take(k + 1).drop_last() =~= history.take(k));
    assert(history[k] <= history[k + 1]);
    lemma_later_is_fewer(history.take(k), history[k], history[k + 1], window);
}

proof fn lemma_number_was_reached(history: Seq<nat>, k: int, window: nat, n: nat) -> (j: int)
    requires
        in_order(history),
        0 <= k < history.len(),
        1 <= n < turn_number(history, k, window),
    ensures
        0 <= j < k,
        turn_number(history, j, window) == n,
    decreases k,
{
    if k == 0 {
        assert(history.take(0) =~= Seq::empty());
        assert(fresh(history.take(0), history[0], window).len() == 0);
        assert(false);
        0
    } else {
        lemma_numbers_rise_by_one(history, k - 1, window);
        if turn_number(history, k - 1, window) == n {
            k - 1
        } else {
            lemma_number_was_reached(history, k - 1, window, n)
        }
    }
}

/// No thread is silenced without a warning before: where a message is dropped
/// silently, an earlier one since the last human message was warned of. A soft
/// limit of zero, which no message number meets, warns of nothing.
pub proof fn lemma_silence_follows_a_warning(
    history: Seq<nat>,
    k: int,
    window: Duration,
    soft_limit: u32,
)
    requires
        in_order(history),
        0 <= k < history.len(),
        soft_limit > 0,
        action_at(history, k, window, soft_limit) is SilentStop,
    ensures
        exists|j: int|
            0 <= j < k && (#[trigger] action_at(history, j, window, soft_limit)) is WarnAndStop,
{
    let limit = if soft_limit < HARD_BOT_TURN_LIMIT {
        soft_limit as nat
    } else {
        HARD_BOT_TURN_LIMIT as nat
    };
    let j = lemma_number_was_reached(history, k, window.in_nanos(), limit);
    assert(action_at(history, j, window, soft_limit) is WarnAndStop);
}

/// Messages are let through exactly below both limits.
pub proof fn lemma_allowed_below_limits(n: nat, soft_limit: u32)
    ensures
        verdict(n, soft_limit) is Allowed <==> n < soft_limit && n < HARD_BOT_TURN_LIMIT,
{
}

/// What the number of a message within the window means, in full.
pub proof fn lemma_what_each_number_means(n: nat, soft_limit: u32)
    ensures
        n > 1000 ==> verdict(n, soft_limit) == TurnResult::Stopped,
        n == 1000 ==> verdict(n, soft_limit) == TurnResult::HardLimit,
        n < 1000 && n > soft_limit ==> verdict(n, soft_limit) == TurnResult::Throttled,
        n < 1000 && n == soft_limit ==> verdict(n, soft_limit) == TurnResult::SoftLimit(soft_limit),
        n < 1000 && n < soft_limit ==> verdict(n, soft_limit) == TurnResult::Allowed,
{
}

/// Of a thread's messages exactly those count that lie less than the window
/// back: one more message counts if it does, and changes nothing if it does not.
pub proof fn lemma_what_counts(arrivals: Seq<nat>, at: nat, now: nat, window: nat)
    ensures
        fresh(Seq::empty(), now, window).len() == 0,
        at <= now && now - at < window ==> fresh(arrivals.push(at), now, window) == fresh(
            arrivals,
            now,
            window,
        ).push(at),
        at <= now && now - at >= window ==> fresh(arrivals.push(at), now, window) == fresh(
            arrivals,
            now,
            window,
        ),
{
    assert(arrivals.push(at).drop_last() =~= arrivals);
}

/// What is remembered is cut only at the hard limit, and the latest messages are
/// those that stay.
pub proof fn lemma_latest_are_remembered(arrivals: Seq<nat>)
    ensures
        arrivals.len() < 1000 ==> capped(arrivals) == arrivals,
        arrivals.len() >= 1000 ==> capped(arrivals).len() == 999,
        forall|i: int|
            0 <= i < capped(arrivals).len() ==> capped(arrivals)[i] == arrivals[arrivals.len()
                - capped(arrivals).len() + i],
{
}

/// A bot message bears on its own thread: there it is counted behind what came
/// before it. Of every thread, what is remembered goes on to stand for the whole
/// of its history, so that no thread bears on the verdict of another.
pub proof fn lemma_message_counts_in_its_thread(
    before: &BotTurnTracker,
    after: &BotTurnTracker,
    thread_id: Seq<char>,
    t: Seq<char>,
    history: Seq<nat>,
    then: nat,
    now: nat,
)
    requires
        before.stepped(after, thread_id, now),
        stands_for(before.arrivals(t), history, then, before.window().in_nanos()),
        then <= now,
    ensures
        stands_for(
            after.arrivals(t),
            if t == thread_id {
                history.push(now)
            } else {
                history
            },
            now,
            after.window().in_nanos(),
        ),
        after.soft_limit() == before.soft_limit(),
        after.window() == before.window(),
        t == thread_id ==> before.result_at(thread_id, now) == verdict(
            fresh(history, now, before.window().in_nanos()).len() + 1,
            before.soft_limit(),
        ),
{
    let w = before.window().in_nanos();
    if t == thread_id {
        lemma_message_is_remembered(before.arrivals(t), history, then, now, w);
        lemma_same_verdict(before.arrivals(t), history, then, now, w, before.soft_limit());
    } else {
        lemma_forgetting_is_safe(before.arrivals(t), history, then, now, w);
    }
}

/// A message below the limits is processed. At a limit the thread is told: how
/// many messages came, in how many minutes, and that it recovers; above it the
/// message is dropped silently.
pub proof fn lemma_what_an_adapter_does(n: u32, window: Duration)
    ensures
        action(TurnResult::Allowed, window) is Continue,
        action(TurnResult::Throttled, window) is SilentStop,
        action(TurnResult::Stopped, window) is SilentStop,
        action(TurnResult::SoftLimit(n), window) == (ActionView::WarnAndStop {
            severity: TurnSeverity::Soft,
            turns: n,
            user_message: "⚠️ Bot turn limit reached"@ + " ("@ + crate::text::decimal(n as nat)
                + " messages in "@ + crate::text::decimal((window.secs / 60) as nat)
                + " minutes). Bot-to-bot messages resume once the rate falls, or immediately if a human replies here."@,
        }),
        action(TurnResult::HardLimit, window) == (ActionView::WarnAndStop {
            severity: TurnSeverity::Hard,
            turns: 1000,
            user_message: "🛑 Hard bot turn limit reached ("@ + crate::text::decimal(1000)
                + " messages in "@ + crate::text::decimal((window.secs / 60) as nat)
                + " minutes). Bot-to-bot messages resume once the rate falls, or immediately if a human replies here."@,
        }),
{
}

/// The window is ten minutes where no other is given.
pub proof fn lemma_usual_window()
    ensures
        DEFAULT_WINDOW_SECS == 10 * 60,
        HARD_BOT_TURN_LIMIT == 1000,
{
}

/// After a human message the next bot message of the thread is the first again,
/// whatever came before; other threads stand as they did.
pub proof fn lemma_human_starts_anew(
    before: &BotTurnTracker,
    after: &BotTurnTracker,
    thread_id: Seq<char>,
    t: Seq<char>,
    now: nat,
)
    requires
        before.cleared(after, thread_id),
    ensures
        after.result_at(thread_id, now) == verdict(1, before.soft_limit()),
        before.soft_limit() > 1 ==> after.result_at(thread_id, now) is Allowed,
        t != thread_id ==> after.result_at(t, now) == before.result_at(t, now),
{
    assert(fresh(Seq::empty(), now, after.window().in_nanos()).len() == 0);
}

} // verus!
