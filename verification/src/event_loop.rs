//! An event loop for lighting controllers.
//! Clients poll the event loop, which acts as an endless source of actions: update the show by a
//! fixed timestep, render a frame, autosave, or idle until the next of these is due.
//! Times are counted in nanoseconds of loop time, which starts at `CLOCK_START` when a loop is
//! created, and durations in nanoseconds.
use vstd::prelude::*;
use std::time::{Duration, Instant};

verus! {

/// Largest time or duration, in nanoseconds, that the event loop works with (about 146 years).
pub const TIME_BOUND: u64 = 0x4000_0000_0000_0000;

/// Loop time, in nanoseconds, at the instant a loop is created: one default render interval, so
/// that a new loop's first frame is due at once.
pub const CLOCK_START: u64 = 20_000_000;

/// Number of nanoseconds in one second.
pub const NANOS_PER_SEC: u64 = 1_000_000_000;

/// Event loop settings.
pub struct Settings {
    /// Fixed duration between updates.
    pub update_interval: u64,
    /// Minimum duration between render events.
    pub render_interval: u64,
    /// Command the application to autosave at this interval.
    /// If None, do not autosave.
    pub autosave_interval: Option<u64>,
}

impl Settings {
    /// The settings are usable: a positive update interval, and every interval within bounds.
    pub open spec fn valid(&self) -> bool {
        &&& 0 < self.update_interval < TIME_BOUND
        &&& self.render_interval < TIME_BOUND
        &&& self.autosave_interval matches Some(a) ==> a < TIME_BOUND
    }
}

impl Default for Settings {
    /// Update at 100 fps, render at most at 50 fps (the limit of DMX), and do not autosave.
    fn default() -> (r: Self)
        ensures
            r.update_interval == 10_000_000,
            r.render_interval == 20_000_000,
            r.autosave_interval is None,
    {
        Settings { update_interval: 10_000_000, render_interval: 20_000_000, autosave_interval: None }
    }
}

/// Events that can occur, to be interpreted and acted upon by the show.
#[derive(PartialEq, Eq, Structural, Clone, Copy, Debug)]
pub enum Event {
    /// Command to render a frame.
    Render,
    /// Command to update the show state using this timestep, in nanoseconds.
    Update(u64),
    /// Command to autosave the show.
    Autosave,
    /// The show has this many nanoseconds to do work until the next event.
    Idle(u64),
}

/// When each kind of event last happened.
#[derive(PartialEq, Eq, Structural, Clone, Copy, Debug)]
pub struct LastEvents {
    pub update: u64,
    pub render: u64,
    pub autosave: u64,
}

impl LastEvents {
    /// Every event last happened at `now`.
    pub fn new(now: u64) -> (r: Self)
        ensures
            r.update == now,
            r.render == now,
            r.autosave == now,
    {
        LastEvents { update: now, render: now, autosave: now }
    }

    /// Every time is within bounds.
    pub open spec fn valid(&self) -> bool {
        self.update <= TIME_BOUND && self.render <= TIME_BOUND && self.autosave <= TIME_BOUND
    }
}

/// Return the number of nanoseconds in a duration of `secs` seconds and `subsec_nanos`
/// nanoseconds.
pub fn nanoseconds(secs: u64, subsec_nanos: u32) -> (r: u64)
    requires
        secs * NANOS_PER_SEC + subsec_nanos <= u64::MAX,
    ensures
        r == secs * NANOS_PER_SEC + subsec_nanos,
{
    secs * NANOS_PER_SEC + subsec_nanos as u64
}

/// Return the number of nanoseconds from `now` until an action that last ran at `last` and runs
/// every `interval` is due again; negative if it is overdue.
pub fn ns_until(now: u64, last: u64, interval: u64) -> (r: i64)
    requires
        now <= TIME_BOUND,
        last <= TIME_BOUND,
        interval < TIME_BOUND,
    ensures
        r == last + interval - now,
{
    let should_run_at = last + interval;
    if should_run_at < now {
        -((now - should_run_at) as i64)
    } else {
        (should_run_at - now) as i64
    }
}

/// Nanoseconds until the next update.
pub open spec fn until_update(now: u64, settings: Settings, last: LastEvents) -> int {
    last.update + settings.update_interval - now
}

/// Nanoseconds until the next render.
pub open spec fn until_render(now: u64, settings: Settings, last: LastEvents) -> int {
    last.render + settings.render_interval - now
}

/// Nanoseconds until the next autosave; i64::MAX when autosave is off.
pub open spec fn until_autosave(now: u64, settings: Settings, last: LastEvents) -> int {
    match settings.autosave_interval {
        Some(a) => last.autosave + a - now,
        None => i64::MAX as int,
    }
}

/// Nanoseconds until the earliest pending event.
pub open spec fn until_next(now: u64, settings: Settings, last: LastEvents) -> int {
    let u = until_update(now, settings, last);
    let r = until_render(now, settings, last);
    let a = until_autosave(now, settings, last);
    let m = if u <= r { u } else { r };
    if m <= a { m } else { a }
}

/// How many update intervals an overdue update step covers: one, or, when three or more steps
/// are due, all but one of them.  The count of due steps is kept in 32 bits and wraps around.
pub open spec fn update_steps(now: u64, settings: Settings, last: LastEvents) -> int {
    let lag = -until_update(now, settings, last);
    let q = (lag / settings.update_interval as int) as u32;
    let needed: int = if q == u32::MAX { 0 } else { q + 1 };
    if needed > 2 { needed - 1 } else { 1 }
}

/// The next event, and the new record of when events last happened, at time `now`.
pub open spec fn spec_next_event(now: u64, settings: Settings, last: LastEvents) -> (Event, LastEvents) {
    let next = until_next(now, settings, last);
    if next <= 0 {
        if next == until_update(now, settings, last) {
            let step = (settings.update_interval * update_steps(now, settings, last)) as u64;
            (Event::Update(step), LastEvents { update: (last.update + step) as u64, ..last })
        } else if next == until_render(now, settings, last) {
            (Event::Render, LastEvents { render: now, ..last })
        } else {
            (Event::Autosave, LastEvents { autosave: now, ..last })
        }
    } else {
        (Event::Idle(next as u64), last)
    }
}

/// Updates advance the show in whole update intervals: an update step is a positive multiple of
/// the update interval, and the record of the last update moves forward by exactly that step,
/// never past the present.
pub proof fn law_updates_are_whole_intervals(now: u64, settings: Settings, last: LastEvents)
    requires
        now <= TIME_BOUND,
        settings.valid(),
        last.valid(),
    ensures
        spec_next_event(now, settings, last).0 matches Event::Update(dt) ==> {
            &&& dt > 0
            &&& dt % settings.update_interval == 0
            &&& spec_next_event(now, settings, last).1.update == last.update + dt
            &&& last.update + dt <= now
        },
{
    let (e, l) = spec_next_event(now, settings, last);
    if e is Update {
        let i = settings.update_interval as int;
        let lag = -until_update(now, settings, last);
        let q = (lag / i) as u32;
        let steps = update_steps(now, settings, last);
        assert(lag >= 0);
        if steps > 1 {
            assert(q as int == steps);
            assert(q as int <= lag / i) by {
                let w = (lag / i) as u64;
                assert(lag / i <= u64::MAX) by (nonlinear_arith)
                    requires
                        0 <= lag <= u64::MAX,
                        i > 0,
                ;
                assert(q == w as u32);
                assert(w as u32 <= w) by (bit_vector);
            }
            assert(i * steps <= lag) by (nonlinear_arith)
                requires
                    steps <= lag / i,
                    i > 0,
                    lag >= 0,
            ;
        }
        assert((i * steps) % i == 0) by (nonlinear_arith)
            requires
                i > 0,
                steps >= 1,
        ;
        assert(i * steps > 0) by (nonlinear_arith)
            requires
                i > 0,
                steps >= 1,
        ;
    }
}

/// A batched update catches up: when three or more update steps are due (and their count fits
/// in 32 bits), the update covers all but one of them, so that the next update is due at once but
/// less than one interval late.
pub proof fn law_batched_update_catches_up(now: u64, settings: Settings, last: LastEvents)
    requires
        now <= TIME_BOUND,
        settings.valid(),
        last.valid(),
        -until_update(now, settings, last) / (settings.update_interval as int) < u32::MAX,
        -until_update(now, settings, last) >= 2 * settings.update_interval,
        spec_next_event(now, settings, last).0 is Update,
    ensures
        -(settings.update_interval as int) < until_update(
            now,
            settings,
            spec_next_event(now, settings, last).1,
        ) <= 0,
{
    let i = settings.update_interval as int;
    let lag = -until_update(now, settings, last);
    let q = lag / i;
    assert(q * i <= lag < q * i + i && q >= 2) by (nonlinear_arith)
        requires
            i > 0,
            lag >= 2 * i,
            q == lag / i,
    ;
    assert((q as u32) as int == q);
    assert(update_steps(now, settings, last) == q);
    assert(i * q == q * i) by (nonlinear_arith);
}

/// The shortest of the intervals in use.
pub open spec fn shortest_interval(settings: Settings) -> int {
    let m = if settings.update_interval <= settings.render_interval {
        settings.update_interval as int
    } else {
        settings.render_interval as int
    };
    match settings.autosave_interval {
        Some(a) => if a < m { a as int } else { m },
        None => m,
    }
}

/// Right after every event has happened, the loop idles: the next event at that same time is
/// an idle period as long as the shortest interval in use, and nothing is recorded.  (With a zero
/// interval that event would be due at once instead.)
pub proof fn law_idle_after_every_event(now: u64, settings: Settings)
    requires
        settings.valid(),
        settings.render_interval > 0,
        settings.autosave_interval matches Some(a) ==> a > 0,
    ensures
        spec_next_event(now, settings, LastEvents::new_spec(now)) == (
            Event::Idle(shortest_interval(settings) as u64),
            LastEvents::new_spec(now),
        ),
{
}

/// After every event has happened at time `t`, nothing is due until the shortest interval has
/// passed: at any time from `t` until then, the next event is an idle period that lasts exactly
/// until `t` plus that interval, and nothing is recorded.  Since a reset records every event at
/// the loop time it reads, and loop time never runs backwards, the first event after a reset is
/// of this kind until one interval has passed.
pub proof fn law_nothing_due_before_an_interval(t: u64, now: u64, settings: Settings)
    requires
        settings.valid(),
        settings.render_interval > 0,
        settings.autosave_interval matches Some(a) ==> a > 0,
        t <= now < t + shortest_interval(settings),
    ensures
        spec_next_event(now, settings, LastEvents::new_spec(t)) == (
            Event::Idle((t + shortest_interval(settings) - now) as u64),
            LastEvents::new_spec(t),
        ),
{
}

/// Get the next action that the application should undertake at time `now`.
pub fn next_event(now: u64, settings: &Settings, last: &mut LastEvents) -> (r: Event)
    requires
        now <= TIME_BOUND,
        settings.valid(),
        old(last).valid(),
    ensures
        (r, *final(last)) == spec_next_event(now, *settings, *old(last)),
        final(last).valid(),
{
    let ns_until_render = ns_until(now, last.render, settings.render_interval);
    let ns_until_update = ns_until(now, last.update, settings.update_interval);
    let ns_until_autosave = match settings.autosave_interval {
        Some(interval) => ns_until(now, last.autosave, interval),
        None => i64::MAX,
    };
    let m = if ns_until_update <= ns_until_render { ns_until_update } else { ns_until_render };
    let ns_until_next = if m <= ns_until_autosave { m } else { ns_until_autosave };
    assert(ns_until_next == until_next(now, *settings, *last));
    if ns_until_next <= 0 {
        if ns_until_next == ns_until_update {
            let lag = (-ns_until_update) as u64;
            let quotient: u64 = lag / settings.update_interval;
            let q = quotient as u32;
            let updates_needed: u32 = if q == u32::MAX { 0 } else { q + 1 };
            if updates_needed > 2 {
                let updates_to_run = updates_needed - 1;
                proof {
                    assert(q as u64 <= quotient) by (bit_vector)
                        requires
                            q == quotient as u32,
                    ;
                    assert(settings.update_interval * updates_to_run <= lag) by (nonlinear_arith)
                        requires
                            updates_to_run <= lag / settings.update_interval,
                            settings.update_interval > 0,
                    ;
                }
                let fat_update_interval = settings.update_interval * updates_to_run as u64;
                last.update = last.update + fat_update_interval;
                Event::Update(fat_update_interval)
            } else {
                last.update = last.update + settings.update_interval;
                Event::Update(settings.update_interval)
            }
        } else if ns_until_next == ns_until_render {
            last.render = now;
            Event::Render
        } else {
            last.autosave = now;
            Event::Autosave
        }
    } else {
        Event::Idle(ns_until_next as u64)
    }
}

#[verifier::external_type_specification]
#[verifier::external_body]
pub struct ExInstant(Instant);

/// The current instant: `std::time::Instant::now`.  Nothing is claimed of the result, which
/// depends on the clock.
#[verifier::external_body]
fn instant_now() -> Instant {
    Instant::now()
}

/// The time elapsed from `earlier` to `later`, zero if `earlier` is later:
/// `std::time::Instant::duration_since`.  Nothing is claimed of the result, which depends on the
/// clock readings held by the instants.
#[verifier::external_body]
fn duration_since(later: &Instant, earlier: &Instant) -> Duration {
    later.duration_since(*earlier)
}

/// The whole number of nanoseconds in a duration: `std::time::Duration::as_nanos`.
/// Nothing is claimed of the result, since durations are opaque here.
#[verifier::external_body]
fn duration_as_nanos(d: &Duration) -> u128 {
    d.as_nanos()
}

/// A source of show events, driven by the clock.
pub struct EventLoop {
    pub settings: Settings,
    last: LastEvents,
    /// The instant from which event times are counted.
    origin: Instant,
    /// The latest loop time read so far.
    seen: u64,
}

impl EventLoop {
    /// The recorded event times are within bounds.
    pub closed spec fn wf(&self) -> bool {
        self.last.valid()
    }

    /// The loop's settings.
    pub closed spec fn current_settings(&self) -> Settings {
        self.settings
    }

    /// When each kind of event last happened, in loop time.
    pub closed spec fn last_events(&self) -> LastEvents {
        self.last
    }

    /// The latest loop time that the loop has read from the clock.
    pub closed spec fn loop_time(&self) -> u64 {
        self.seen
    }

    /// Loop time now: nanoseconds since the loop's origin, plus the loop time at the origin,
    /// capped at the time bound.  Loop time never runs backwards: the clock is monotonic, and a
    /// reading earlier than one already seen is taken as the one already seen.
    fn now(&mut self) -> (r: u64)
        ensures
            CLOCK_START <= r <= TIME_BOUND,
            old(self).loop_time() <= TIME_BOUND ==> old(self).loop_time() <= r,
            final(self).loop_time() == r,
            final(self).settings == old(self).settings,
            final(self).last == old(self).last,
    {
        let now = instant_now();
        let elapsed = duration_as_nanos(&duration_since(&now, &self.origin));
        let reading = if elapsed > (TIME_BOUND - CLOCK_START) as u128 {
            TIME_BOUND
        } else {
            elapsed as u64 + CLOCK_START
        };
        let r = if reading < self.seen && self.seen <= TIME_BOUND {
            self.seen
        } else {
            reading
        };
        self.seen = r;
        r
    }

    /// Create an event loop with default settings.  The first frame renders immediately, and the
    /// first update comes one update interval later: at the loop time of creation the next event
    /// is a render, and the next update is due one update interval after that time.
    pub fn new() -> (r: Self)
        ensures
            r.wf(),
            r.current_settings().update_interval == 10_000_000,
            r.current_settings().render_interval == 20_000_000,
            r.current_settings().autosave_interval is None,
            r.last_events() == (LastEvents { update: CLOCK_START, render: 0, autosave: CLOCK_START }),
            spec_next_event(CLOCK_START, r.current_settings(), r.last_events()).0 == Event::Render,
            r.last_events().update + r.current_settings().update_interval == CLOCK_START
                + 10_000_000,
            r.loop_time() == CLOCK_START,
    {
        let origin = instant_now();
        let settings = Settings::default();
        let last = LastEvents { update: CLOCK_START, render: 0, autosave: CLOCK_START };
        EventLoop { settings, last, origin, seen: CLOCK_START }
    }

    /// Reset the event loop to a state where every event happened right now: at the loop time
    /// read by this call, which is no earlier than any loop time read before.
    pub fn reset(&mut self)
        ensures
            final(self).wf(),
            final(self).current_settings() == old(self).current_settings(),
            exists|now: u64|
                CLOCK_START <= now <= TIME_BOUND && final(self).last_events() == LastEvents::new_spec(
                    now,
                ) && final(self).loop_time() == now && (old(self).loop_time() <= TIME_BOUND
                    ==> old(self).loop_time() <= now),
    {
        let now = self.now();
        self.last = LastEvents::new(now);
        assert(self.last_events() == LastEvents::new_spec(now));
    }

    /// Generate the next event.
    pub fn next(&mut self) -> (r: Event)
        requires
            old(self).wf(),
            old(self).current_settings().valid(),
        ensures
            final(self).wf(),
            final(self).current_settings() == old(self).current_settings(),
            exists|now: u64|
                CLOCK_START <= now <= TIME_BOUND && (r, final(self).last_events()) == spec_next_event(
                    now,
                    old(self).current_settings(),
                    old(self).last_events(),
                ) && final(self).loop_time() == now && (old(self).loop_time() <= TIME_BOUND
                    ==> old(self).loop_time() <= now),
    {
        let now = self.now();
        let r = next_event(now, &self.settings, &mut self.last);
        assert((r, self.last_events()) == spec_next_event(
            now,
            old(self).current_settings(),
            old(self).last_events(),
        ));
        r
    }
}

impl LastEvents {
    /// Every event last happened at `now`.
    pub open spec fn new_spec(now: u64) -> LastEvents {
        LastEvents { update: now, render: now, autosave: now }
    }
}

} // verus!
