//! The kernel clock, counted in timer ticks.
use vstd::prelude::*;

verus! {

/// Frequency of the programmable interval timer, in ticks per second.
pub const TICK_HZ: usize = 100;

/// Milliseconds that `ticks` timer ticks last.
pub open spec fn ticks_to_ms_spec(ticks: int) -> int {
    (ticks * 1000) / (TICK_HZ as int)
}

/// Timer ticks that elapse in `ms` milliseconds, rounded down.
pub open spec fn ms_to_ticks_spec(ms: int) -> int {
    (ms * (TICK_HZ as int)) / 1000
}

/// Counts the timer interrupts since the kernel started.
pub struct TimeManager {
    boot_time: usize,
    tick_counter: usize,
}

impl TimeManager {
    /// The tick count.
    pub closed spec fn ticks(&self) -> usize {
        self.tick_counter
    }

    /// The boot time that the manager was made with.
    pub closed spec fn boot(&self) -> usize {
        self.boot_time
    }

    /// A clock that has seen no tick yet.
    pub fn new(boot_time: usize) -> (tm: Self)
        ensures
            tm.ticks() == 0,
            tm.boot() == boot_time,
    {
        Self { boot_time, tick_counter: 0 }
    }

    /// Counts one timer interrupt; the counter wraps around at `usize::MAX`.
    pub fn register_tick(&mut self)
        ensures
            final(self).boot() == old(self).boot(),
            final(self).ticks() == if old(self).ticks() < usize::MAX {
                (old(self).ticks() + 1) as usize
            } else {
                0usize
            },
    {
        self.tick_counter = self.tick_counter.wrapping_add(1);
    }

    /// The current tick count.
    pub fn current_tick(&self) -> (t: usize)
        ensures
            t == self.ticks(),
    {
        self.tick_counter
    }

    /// Milliseconds since boot, as counted by the timer.
    pub fn get_uptime_ms(&self) -> (ms: usize)
        requires
            self.ticks() * 1000 <= usize::MAX,
        ensures
            ms == ticks_to_ms_spec(self.ticks() as int),
    {
        let current_tick = self.tick_counter;
        self.ticks_to_ms(current_tick)
    }

    /// Milliseconds between the ticks `start` and `end`.
    pub fn time_between_ticks_ms(&self, start: usize, end: usize) -> (ms: usize)
        requires
            start <= end,
            (end - start) * 1000 <= usize::MAX,
        ensures
            ms == ticks_to_ms_spec(end - start),
    {
        self.ticks_to_ms(end - start)
    }

    /// Ticks that elapse in `time` milliseconds, rounded down.
    pub fn ms_to_ticks(&self, time: usize) -> (ticks: usize)
        requires
            time * TICK_HZ <= usize::MAX,
        ensures
            ticks == ms_to_ticks_spec(time as int),
    {
        (time * TICK_HZ) / 1000
    }

    /// Milliseconds that `ticks` ticks last.
    pub fn ticks_to_ms(&self, ticks: usize) -> (ms: usize)
        requires
            ticks * 1000 <= usize::MAX,
        ensures
            ms == ticks_to_ms_spec(ticks as int),
    {
        (ticks * 1000) / TICK_HZ
    }
}

/// A busy wait: the tick after which it is over.
pub struct Sleep {
    end: usize,
}

impl Sleep {
    /// The last tick of the wait.
    pub closed spec fn end_tick(&self) -> usize {
        self.end
    }

    /// Whether the wait is over at tick `current`.
    pub fn is_over(&self, current: usize) -> (over: bool)
        ensures
            over == (current > self.end_tick()),
    {
        current > self.end
    }
}

/// Starts a wait of `duration` milliseconds on the clock `tm`: it ends once
/// the tick count passes the current count plus the ticks of `duration`.
pub fn sleep(tm: &TimeManager, duration: usize) -> (s: Sleep)
    requires
        duration * TICK_HZ <= usize::MAX,
        tm.ticks() + ms_to_ticks_spec(duration as int) <= usize::MAX,
    ensures
        s.end_tick() == tm.ticks() + ms_to_ticks_spec(duration as int),
{
    let start = tm.tick_counter;
    let end = start + tm.ms_to_ticks(duration);
    Sleep { end }
}

/// With 100 ticks a second a tick lasts 10 ms: `ticks` ticks last
/// `10 * ticks` ms, and `ms` milliseconds hold `ms / 10` whole ticks.
pub proof fn lemma_tick_is_ten_ms(ticks: int, ms: int)
    requires
        ticks >= 0,
        ms >= 0,
    ensures
        ticks_to_ms_spec(ticks) == 10 * ticks,
        ms_to_ticks_spec(ms) == ms / 10,
{
}

/// Whole ticks survive a round trip through milliseconds.
pub proof fn lemma_ticks_ms_round_trip(ticks: int)
    requires
        ticks >= 0,
    ensures
        ms_to_ticks_spec(ticks_to_ms_spec(ticks)) == ticks,
{
    assert(ticks * 1000 / 100 == ticks * 10);
    assert(ticks * 10 * 100 / 1000 == ticks);
}

/// Converting milliseconds to ticks and back loses less than one tick.
pub proof fn lemma_ms_ticks_round_down(ms: int)
    requires
        ms >= 0,
    ensures
        ticks_to_ms_spec(ms_to_ticks_spec(ms)) <= ms,
        ms < ticks_to_ms_spec(ms_to_ticks_spec(ms)) + 1000int / (TICK_HZ as int),
{
    assert(ms * 100 / 1000 == ms / 10);
    assert((ms / 10) * 1000 / 100 == (ms / 10) * 10);
}

/// Each tick adds one tick's length to the uptime.
pub proof fn lemma_tick_adds_ms(ticks: int)
    requires
        ticks >= 0,
    ensures
        ticks_to_ms_spec(ticks + 1) == ticks_to_ms_spec(ticks) + 1000int / (TICK_HZ as int),
{
}

/// The time between two ticks is the difference of their times since boot.
pub proof fn lemma_time_between(start: int, end: int)
    requires
        0 <= start <= end,
    ensures
        ticks_to_ms_spec(end - start) == ticks_to_ms_spec(end) - ticks_to_ms_spec(start),
{
}

/// A sleep never ends early: once it is over, more than `duration`
/// milliseconds have passed since the tick it started at.
pub proof fn lemma_sleep_not_early(start: int, duration: int, current: int)
    requires
        0 <= start,
        0 <= duration,
        current > start + ms_to_ticks_spec(duration),
    ensures
        ticks_to_ms_spec(current - start) > duration,
{
    assert(duration * 100 / 1000 == duration / 10);
    assert((current - start) * 1000 / 100 == (current - start) * 10);
}

} // verus!
