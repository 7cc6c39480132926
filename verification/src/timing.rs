//! Cool-down decisions. Times are nanoseconds on one monotonic clock;
//! `None` stands for a frame clock that has not ticked yet.
use vstd::prelude::*;

verus! {

/// Nanoseconds from `since` to `now`, zero when `now` comes first.
pub open spec fn elapsed(now: u64, since: u64) -> int {
    if now >= since {
        now - since
    } else {
        0
    }
}

/// Least time between two enemy spawns: 0.2 s.
pub const SPAWN_INTERVAL_NANOS: u64 = 200_000_000;

/// Least time between two wall placements of a builder: 1 s.
pub const BUILD_INTERVAL_NANOS: u64 = 1_000_000_000;

/// Whether more than `period` has passed since `*last` at frame time `now`;
/// when so, `*last` becomes `now`.
pub fn cooldown_elapsed(last: &mut u64, now: Option<u64>, period: u64) -> (ready: bool)
    ensures
        ready == (now matches Some(t) && elapsed(t, *old(last)) > period),
        ready == (now is Some && now->0 >= *old(last) && now->0 - *old(last) > period),
        *final(last) == if ready {
            now->0
        } else {
            *old(last)
        },
{
    match now {
        Some(t) => {
            if t.saturating_sub(*last) > period {
                *last = t;
                true
            } else {
                false
            }
        },
        None => false,
    }
}

/// When the enemy spawner last spawned.
pub struct WaveState {
    pub last_spawn: u64,
}

impl WaveState {
    /// Whether an enemy spawns this frame: always, unless the frame clock
    /// has ticked and less than 0.2 s have passed since the last spawn.
    /// When the clock has ticked and an enemy spawns, the spawn time becomes
    /// `now`.
    pub fn should_spawn(&mut self, now: Option<u64>) -> (spawn: bool)
        ensures
            spawn == !(now matches Some(t) && elapsed(t, old(self).last_spawn)
                < SPAWN_INTERVAL_NANOS),
            // no spawn only while the clock has ticked and stands less than
            // 0.2 s after the last spawn (or before it)
            !spawn == (now is Some && (now->0 < old(self).last_spawn || now->0
                - old(self).last_spawn < 200_000_000)),
            final(self).last_spawn == if spawn && now is Some {
                now->0
            } else {
                old(self).last_spawn
            },
    {
        if let Some(t) = now {
            if t.saturating_sub(self.last_spawn) < SPAWN_INTERVAL_NANOS {
                return false;
            }
            self.last_spawn = t;
        }
        true
    }
}

/// The spawn interval is 0.2 s and the build interval 1 s, in nanoseconds.
pub proof fn lemma_intervals()
    ensures
        SPAWN_INTERVAL_NANOS == 200_000_000,
        BUILD_INTERVAL_NANOS == 1_000_000_000,
{
}

} // verus!
