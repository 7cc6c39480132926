use sjovt::timing::{cooldown_elapsed, WaveState, BUILD_INTERVAL_NANOS, SPAWN_INTERVAL_NANOS};

#[test]
fn cooldown_needs_more_than_the_period() {
    let mut last = 1_000u64;
    assert!(!cooldown_elapsed(&mut last, Some(1_000 + BUILD_INTERVAL_NANOS), BUILD_INTERVAL_NANOS));
    assert_eq!(last, 1_000);
    assert!(cooldown_elapsed(&mut last, Some(1_001 + BUILD_INTERVAL_NANOS), BUILD_INTERVAL_NANOS));
    assert_eq!(last, 1_001 + BUILD_INTERVAL_NANOS);
}

#[test]
fn cooldown_without_clock() {
    let mut last = 3u64;
    assert!(!cooldown_elapsed(&mut last, None, 0));
    assert_eq!(last, 3);
}

#[test]
fn spawner_waits_a_fifth_of_a_second() {
    let mut wave = WaveState { last_spawn: 0 };
    assert!(!wave.should_spawn(Some(SPAWN_INTERVAL_NANOS - 1)));
    assert_eq!(wave.last_spawn, 0);
    assert!(wave.should_spawn(Some(SPAWN_INTERVAL_NANOS)));
    assert_eq!(wave.last_spawn, SPAWN_INTERVAL_NANOS);
}

#[test]
fn spawner_spawns_before_the_clock_ticks() {
    let mut wave = WaveState { last_spawn: 42 };
    assert!(wave.should_spawn(None));
    assert_eq!(wave.last_spawn, 42);
}

#[test]
fn spawner_with_clock_behind_waits() {
    let mut wave = WaveState { last_spawn: 10 * SPAWN_INTERVAL_NANOS };
    assert!(!wave.should_spawn(Some(SPAWN_INTERVAL_NANOS)));
    assert_eq!(wave.last_spawn, 10 * SPAWN_INTERVAL_NANOS);
}
