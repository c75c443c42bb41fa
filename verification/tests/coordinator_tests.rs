use sitegen::coordinator::{generation_text, refresh_refresher_token, Coordinator, WatchState};

#[test]
fn starts_idle_at_generation_zero() {
    let c = Coordinator::new();
    assert_eq!(c.state, WatchState::Idle);
    assert_eq!(c.generation, 0);
}

#[test]
fn first_event_spawns_later_events_are_dropped() {
    let mut c = Coordinator::new();
    assert!(c.on_fs_event());
    let mut extra_spawns = 0;
    for _ in 0..100 {
        if c.on_fs_event() {
            extra_spawns += 1;
        }
    }
    assert_eq!(extra_spawns, 0);
    c.on_build_complete(true);
    assert_eq!(c.state, WatchState::Idle);
    // After the in-flight build completes, a new burst spawns exactly one
    // more rebuild, never one per event.
    let mut spawns = 0;
    for _ in 0..100 {
        if c.on_fs_event() {
            spawns += 1;
        }
    }
    assert_eq!(spawns, 1);
}

#[test]
fn only_successful_builds_advance_the_generation() {
    let mut c = Coordinator::new();
    c.on_fs_event();
    c.on_build_complete(false);
    assert_eq!(c.generation, 0);
    c.on_fs_event();
    c.on_build_complete(true);
    assert_eq!(c.generation, 1);
    c.on_fs_event();
    c.on_build_complete(true);
    assert_eq!(c.generation, 2);
}

#[test]
fn generation_is_non_decreasing_across_successful_builds() {
    let mut c = Coordinator::new();
    let mut last = c.generation;
    for _ in 0..50 {
        c.on_fs_event();
        c.on_build_complete(true);
        assert!(c.generation >= last);
        last = c.generation;
    }
}

#[test]
fn counter_wraps_to_zero_at_the_ceiling() {
    let mut token = 999_998;
    refresh_refresher_token(&mut token);
    assert_eq!(token, 999_999);
    refresh_refresher_token(&mut token);
    assert_eq!(token, 0);
}

#[test]
fn generation_text_is_plain_decimal() {
    assert_eq!(generation_text(0), "0");
    assert_eq!(generation_text(7), "7");
    assert_eq!(generation_text(42), "42");
    assert_eq!(generation_text(999_999), "999999");
    assert_eq!(generation_text(100000), "100000");
}
