use openab::bot_turns::{
    BotTurnTracker, TurnAction, TurnResult, TurnSeverity, BOT_TURN_LIMIT_WARNING_PREFIX,
    DEFAULT_WINDOW_SECS, HARD_BOT_TURN_LIMIT,
};
use openab::time::Duration;

#[test]
fn bot_turns_increment() {
    let mut t = BotTurnTracker::new(5);
    assert_eq!(t.on_bot_message("t1"), TurnResult::Allowed);
    assert_eq!(t.on_bot_message("t1"), TurnResult::Allowed);
}

#[test]
fn soft_limit_triggers() {
    let mut t = BotTurnTracker::new(3);
    assert_eq!(t.on_bot_message("t1"), TurnResult::Allowed);
    assert_eq!(t.on_bot_message("t1"), TurnResult::Allowed);
    assert_eq!(t.on_bot_message("t1"), TurnResult::SoftLimit(3));
}

#[test]
fn human_resets_both_counters() {
    let mut t = BotTurnTracker::new(3);
    assert_eq!(t.on_bot_message("t1"), TurnResult::Allowed);
    assert_eq!(t.on_bot_message("t1"), TurnResult::Allowed);
    t.on_human_message("t1");
    assert_eq!(t.on_bot_message("t1"), TurnResult::Allowed);
    assert_eq!(t.on_bot_message("t1"), TurnResult::Allowed);
    assert_eq!(t.on_bot_message("t1"), TurnResult::SoftLimit(3));
}

#[test]
fn hard_limit_triggers() {
    let mut t = BotTurnTracker::new(HARD_BOT_TURN_LIMIT + 1);
    for _ in 0..HARD_BOT_TURN_LIMIT - 1 {
        assert_eq!(t.on_bot_message("t1"), TurnResult::Allowed);
    }
    assert_eq!(t.on_bot_message("t1"), TurnResult::HardLimit);
}

#[test]
fn hard_limit_does_not_fire_at_legacy_100() {
    let mut t = BotTurnTracker::new(HARD_BOT_TURN_LIMIT + 1);
    for i in 1..=100 {
        assert_eq!(t.on_bot_message("t1"), TurnResult::Allowed, "turn {i}");
    }
}

#[test]
fn hard_limit_resets_on_human() {
    let mut t = BotTurnTracker::new(HARD_BOT_TURN_LIMIT + 1);
    for _ in 0..HARD_BOT_TURN_LIMIT - 1 {
        assert_eq!(t.on_bot_message("t1"), TurnResult::Allowed);
    }
    t.on_human_message("t1");
    assert_eq!(t.on_bot_message("t1"), TurnResult::Allowed);
}

#[test]
fn hard_before_soft_when_equal() {
    let mut t = BotTurnTracker::new(HARD_BOT_TURN_LIMIT);
    for _ in 0..HARD_BOT_TURN_LIMIT - 1 {
        assert_eq!(t.on_bot_message("t1"), TurnResult::Allowed);
    }
    assert_eq!(t.on_bot_message("t1"), TurnResult::HardLimit);
}

#[test]
fn threads_are_independent() {
    let mut t = BotTurnTracker::new(3);
    assert_eq!(t.on_bot_message("t1"), TurnResult::Allowed);
    assert_eq!(t.on_bot_message("t1"), TurnResult::Allowed);
    assert_eq!(t.on_bot_message("t1"), TurnResult::SoftLimit(3));
    assert_eq!(t.on_bot_message("t2"), TurnResult::Allowed);
}

#[test]
fn human_on_unknown_thread_is_noop() {
    let mut t = BotTurnTracker::new(5);
    t.on_human_message("unknown");
}

#[test]
fn two_bot_pingpong_hits_soft_limit() {
    let mut t = BotTurnTracker::new(20);
    for i in 1..20 {
        assert_eq!(t.on_bot_message("t1"), TurnResult::Allowed, "turn {i}");
    }
    assert_eq!(t.on_bot_message("t1"), TurnResult::SoftLimit(20));
}

#[test]
fn two_bot_pingpong_human_resets() {
    let mut t = BotTurnTracker::new(20);
    for _ in 0..15 {
        assert_eq!(t.on_bot_message("t1"), TurnResult::Allowed);
    }
    t.on_human_message("t1");
    for _ in 0..15 {
        assert_eq!(t.on_bot_message("t1"), TurnResult::Allowed);
    }
    for _ in 0..4 {
        assert_eq!(t.on_bot_message("t1"), TurnResult::Allowed);
    }
    assert_eq!(t.on_bot_message("t1"), TurnResult::SoftLimit(20));
}

#[test]
fn soft_limit_warn_once_semantics() {
    let mut t = BotTurnTracker::new(20);
    for _ in 0..19 {
        assert_eq!(t.on_bot_message("t1"), TurnResult::Allowed);
    }
    assert_eq!(t.on_bot_message("t1"), TurnResult::SoftLimit(20));
    assert_eq!(t.on_bot_message("t1"), TurnResult::Throttled);
    assert_eq!(t.on_bot_message("t1"), TurnResult::Throttled);
}

#[test]
fn hard_limit_warn_once_semantics() {
    let mut t = BotTurnTracker::new(HARD_BOT_TURN_LIMIT + 1);
    for _ in 0..HARD_BOT_TURN_LIMIT - 1 {
        assert_eq!(t.on_bot_message("t1"), TurnResult::Allowed);
    }
    assert_eq!(t.on_bot_message("t1"), TurnResult::HardLimit);
    assert_eq!(t.on_bot_message("t1"), TurnResult::Stopped);
}

#[test]
fn system_message_does_not_reset_counter() {
    let mut t = BotTurnTracker::new(3);
    assert_eq!(t.on_bot_message("t1"), TurnResult::Allowed);
    assert_eq!(t.on_bot_message("t1"), TurnResult::Allowed);
    assert_eq!(t.on_bot_message("t1"), TurnResult::SoftLimit(3));
}

#[test]
fn classify_returns_continue_under_limits() {
    let mut t = BotTurnTracker::new(5);
    assert_eq!(t.classify_bot_message("t1"), TurnAction::Continue);
}

#[test]
fn classify_returns_warn_and_stop_on_soft_limit() {
    let mut t = BotTurnTracker::new(3);
    let _ = t.classify_bot_message("t1");
    let _ = t.classify_bot_message("t1");
    assert_eq!(
        t.classify_bot_message("t1"),
        TurnAction::WarnAndStop {
            severity: TurnSeverity::Soft,
            turns: 3,
            user_message: format!(
                "{} (3 messages in {minutes} minutes). \
                 Bot-to-bot messages resume once the rate falls, or \
                 immediately if a human replies here.",
                BOT_TURN_LIMIT_WARNING_PREFIX,
                minutes = DEFAULT_WINDOW_SECS / 60,
            ),
        },
    );
}

#[test]
fn classify_returns_silent_stop_past_soft_limit() {
    let mut t = BotTurnTracker::new(2);
    let _ = t.classify_bot_message("t1");
    let _ = t.classify_bot_message("t1");
    assert_eq!(t.classify_bot_message("t1"), TurnAction::SilentStop);
    assert_eq!(t.classify_bot_message("t1"), TurnAction::SilentStop);
}

#[test]
fn classify_returns_warn_and_stop_on_hard_limit() {
    let mut t = BotTurnTracker::new(HARD_BOT_TURN_LIMIT + 1);
    for _ in 0..HARD_BOT_TURN_LIMIT - 1 {
        let _ = t.classify_bot_message("t1");
    }
    assert_eq!(
        t.classify_bot_message("t1"),
        TurnAction::WarnAndStop {
            severity: TurnSeverity::Hard,
            turns: HARD_BOT_TURN_LIMIT,
            user_message: format!(
                "🛑 Hard bot turn limit reached ({HARD_BOT_TURN_LIMIT} messages in \
                 {minutes} minutes). Bot-to-bot messages resume once the rate \
                 falls, or immediately if a human replies here.",
                minutes = DEFAULT_WINDOW_SECS / 60,
            ),
        },
    );
    assert_eq!(t.classify_bot_message("t1"), TurnAction::SilentStop);
}

#[test]
fn a_long_running_loop_is_not_stopped_by_its_own_length() {
    let mut tracker = BotTurnTracker::with_window(100, Duration::from_secs(600));
    let start = tracker.now();
    for minute in 0..(24 * 60) {
        let now = start.plus(Duration::from_secs(minute * 60));
        for _ in 0..3 {
            assert_eq!(
                tracker.on_bot_message_at("thread", now),
                TurnResult::Allowed,
                "{minute} 分の時点で止まった",
            );
        }
    }
}

#[test]
fn a_flood_still_stops() {
    let mut tracker = BotTurnTracker::with_window(100, Duration::from_secs(600));
    let now = tracker.now();
    for _ in 0..99 {
        assert_eq!(tracker.on_bot_message_at("thread", now), TurnResult::Allowed);
    }
    assert_eq!(
        tracker.on_bot_message_at("thread", now),
        TurnResult::SoftLimit(100),
    );
    assert_eq!(
        tracker.on_bot_message_at("thread", now),
        TurnResult::Throttled,
    );
}

#[test]
fn a_flood_stays_stopped_while_it_continues() {
    let mut tracker = BotTurnTracker::with_window(10, Duration::from_secs(600));
    let start = tracker.now();
    for i in 0..10 {
        let _ = tracker.on_bot_message_at("thread", start.plus(Duration::from_secs(i)));
    }
    assert_eq!(
        tracker.on_bot_message_at("thread", start.plus(Duration::from_secs(300))),
        TurnResult::Throttled,
    );
}

#[test]
fn a_thread_recovers_once_the_flood_stops() {
    let mut tracker = BotTurnTracker::with_window(10, Duration::from_secs(600));
    let start = tracker.now();
    for i in 0..12 {
        let _ = tracker.on_bot_message_at("thread", start.plus(Duration::from_secs(i)));
    }
    assert_eq!(
        tracker.on_bot_message_at("thread", start.plus(Duration::from_secs(700))),
        TurnResult::Allowed,
        "窓を過ぎても解除されない",
    );
}

#[test]
fn a_human_still_clears_it_immediately() {
    let mut tracker = BotTurnTracker::with_window(3, Duration::from_secs(600));
    let now = tracker.now();
    for _ in 0..5 {
        let _ = tracker.on_bot_message_at("thread", now);
    }
    tracker.on_human_message("thread");
    assert_eq!(tracker.on_bot_message_at("thread", now), TurnResult::Allowed);
}

#[test]
fn a_quiet_thread_stops_taking_up_room() {
    let mut tracker = BotTurnTracker::with_window(100, Duration::from_secs(600));
    let start = tracker.now();
    for i in 0..50 {
        let _ = tracker.on_bot_message_at("thread", start.plus(Duration::from_secs(i)));
    }
    let _ = tracker.on_bot_message_at("thread", start.plus(Duration::from_secs(1_000)));
    assert_eq!(tracker.remembered("thread"), 1, "窓の外が残っている");
}

#[test]
fn classify_is_per_thread_independent() {
    let mut t = BotTurnTracker::new(2);
    assert_eq!(t.classify_bot_message("t1"), TurnAction::Continue);
    assert!(matches!(
        t.classify_bot_message("t1"),
        TurnAction::WarnAndStop {
            severity: TurnSeverity::Soft,
            ..
        },
    ));
    assert_eq!(t.classify_bot_message("t2"), TurnAction::Continue);
    assert!(matches!(
        t.classify_bot_message("t2"),
        TurnAction::WarnAndStop {
            severity: TurnSeverity::Soft,
            ..
        },
    ));
}

#[test]
fn classify_resumes_after_human_message() {
    let mut t = BotTurnTracker::new(2);
    let _ = t.classify_bot_message("t1");
    assert!(matches!(
        t.classify_bot_message("t1"),
        TurnAction::WarnAndStop { .. },
    ));
    assert_eq!(t.classify_bot_message("t1"), TurnAction::SilentStop);
    t.on_human_message("t1");
    assert_eq!(t.classify_bot_message("t1"), TurnAction::Continue);
    assert!(matches!(
        t.classify_bot_message("t1"),
        TurnAction::WarnAndStop {
            severity: TurnSeverity::Soft,
            turns: 2,
            ..
        },
    ));
}

#[test]
fn remembered_messages_never_exceed_the_hard_limit() {
    let mut tracker = BotTurnTracker::new(HARD_BOT_TURN_LIMIT + 1);
    let now = tracker.now();
    for _ in 0..HARD_BOT_TURN_LIMIT + 5 {
        let _ = tracker.on_bot_message_at("thread", now);
    }
    assert_eq!(tracker.remembered("thread"), HARD_BOT_TURN_LIMIT as usize);
    assert_eq!(tracker.on_bot_message_at("thread", now), TurnResult::Stopped);
}

#[test]
fn another_thread_makes_a_quiet_one_forgotten() {
    let mut tracker = BotTurnTracker::with_window(5, Duration::from_secs(10));
    let start = tracker.now();
    let _ = tracker.on_bot_message_at("quiet", start);
    assert_eq!(tracker.remembered("quiet"), 1);
    let _ = tracker.on_bot_message_at("loud", start.plus(Duration::from_secs(9)));
    assert_eq!(tracker.remembered("quiet"), 1);
    let _ = tracker.on_bot_message_at("loud", start.plus(Duration::from_secs(10)));
    assert_eq!(tracker.remembered("quiet"), 0);
}

#[test]
fn message_at_the_edge_of_the_window_is_out() {
    let mut tracker = BotTurnTracker::with_window(2, Duration::from_millis(1_500));
    let start = tracker.now();
    assert_eq!(tracker.on_bot_message_at("t", start), TurnResult::Allowed);
    assert_eq!(
        tracker.on_bot_message_at("t", start.plus(Duration::from_millis(1_500))),
        TurnResult::Allowed,
    );
    assert_eq!(
        tracker.on_bot_message_at("t", start.plus(Duration::from_millis(2_999))),
        TurnResult::SoftLimit(2),
    );
}

#[test]
fn any_span_can_be_added_to_the_present() {
    let tracker = BotTurnTracker::new(5);
    let now = tracker.now();
    let longest = Duration { secs: u64::MAX, nanos: 999_999_999 };
    assert_eq!(now.plus(longest).nanos, now.nanos + longest.as_nanos());
    assert!(tracker.now().nanos >= now.nanos);
}

#[test]
fn silence_comes_after_a_warning() {
    let mut tracker = BotTurnTracker::with_window(2, Duration::from_secs(10));
    let start = tracker.now();
    let mut warned = false;
    for i in 0..30 {
        match tracker.classify_bot_message_at("t", start.plus(Duration::from_secs(i * 4))) {
            TurnAction::WarnAndStop { .. } => warned = true,
            TurnAction::SilentStop => assert!(warned),
            TurnAction::Continue => {}
        }
    }
    assert!(warned);
}
