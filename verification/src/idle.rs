//! The idle policy: after a quiet stretch the session locks itself, the
//! video screensaver starts, and later the displays power off. A timer asks
//! every few seconds; any real input re-arms everything.
//!
//! Each of the three is disabled by a threshold of 0 seconds, and fires at
//! most once per idle stretch.
use vstd::prelude::*;

verus! {

/// The thresholds, in seconds of quiet input (0 disables that step).
#[derive(Clone, Copy)]
pub struct IdleConfig {
    pub lock_secs: u64,
    pub screensaver_secs: u64,
    pub screen_off_secs: u64,
}

/// What the idle policy remembers between ticks.
#[derive(Clone, Copy, PartialEq, Eq, Structural)]
pub struct IdleState {
    /// The auto-lock fired in this idle stretch.
    pub lock_fired: bool,
    /// The screensaver was started in this idle stretch.
    pub screensaver_fired: bool,
    /// The displays are powered off.
    pub screen_off: bool,
}

/// What a tick asks of the compositor, in this order: restart the idle
/// clock; run the locker; start the screensaver; stop any screensaver and
/// power the displays off.
#[derive(Clone, Copy, PartialEq, Eq, Structural)]
pub struct IdleActions {
    pub reset_clock: bool,
    pub lock: bool,
    pub start_screensaver: bool,
    pub screen_off: bool,
}

/// The world as the tick sees it.
#[derive(Clone, Copy)]
pub struct IdleInputs {
    /// Seconds since the last real input.
    pub idle_secs: u64,
    /// Some surface (a playing video) holds an idle inhibitor.
    pub inhibited: bool,
    /// The session is locked already (lock screen or the in-compositor lock).
    pub locked: bool,
    /// A screensaver process is still running.
    pub screensaver_running: bool,
}

/// A step with threshold `secs` is due after `idle` quiet seconds.
pub open spec fn due(secs: u64, idle: u64) -> bool {
    secs > 0 && idle >= secs
}

pub open spec fn no_actions() -> IdleActions {
    IdleActions { reset_clock: false, lock: false, start_screensaver: false, screen_off: false }
}

impl IdleState {
    /// Nothing fired, displays on.
    pub fn new() -> (r: IdleState)
        ensures
            !r.lock_fired && !r.screensaver_fired && !r.screen_off,
    {
        IdleState { lock_fired: false, screensaver_fired: false, screen_off: false }
    }

    /// One timer tick. While an inhibitor is held the clock restarts and
    /// nothing else happens. Otherwise: lock once when the lock step is due
    /// and the session is not locked; start the screensaver once when its
    /// step is due, none is running, the session is not locked and the
    /// displays are on; power the displays off when that step is due and they
    /// are on.
    pub open spec fn tick_spec(self, cfg: IdleConfig, now: IdleInputs) -> (IdleState, IdleActions) {
        if now.inhibited {
            (self, IdleActions { reset_clock: true, ..no_actions() })
        } else {
            let lock = due(cfg.lock_secs, now.idle_secs) && !self.lock_fired && !now.locked;
            let saver = due(cfg.screensaver_secs, now.idle_secs) && !self.screensaver_fired
                && !now.screensaver_running && !now.locked && !self.screen_off;
            let off = due(cfg.screen_off_secs, now.idle_secs) && !self.screen_off;
            (
                IdleState {
                    lock_fired: self.lock_fired || lock,
                    screensaver_fired: self.screensaver_fired || saver,
                    screen_off: self.screen_off || off,
                },
                IdleActions { reset_clock: false, lock, start_screensaver: saver, screen_off: off },
            )
        }
    }

    /// One timer tick (see `tick_spec`).
    pub fn tick(self, cfg: IdleConfig, now: IdleInputs) -> (r: (IdleState, IdleActions))
        ensures
            r == self.tick_spec(cfg, now),
    {
        if now.inhibited {
            return (
                self,
                IdleActions {
                    reset_clock: true,
                    lock: false,
                    start_screensaver: false,
                    screen_off: false,
                },
            );
        }
        let idle = now.idle_secs;
        let lock = cfg.lock_secs > 0 && idle >= cfg.lock_secs && !self.lock_fired && !now.locked;
        let saver = cfg.screensaver_secs > 0 && idle >= cfg.screensaver_secs
            && !self.screensaver_fired && !now.screensaver_running && !now.locked
            && !self.screen_off;
        let off = cfg.screen_off_secs > 0 && idle >= cfg.screen_off_secs && !self.screen_off;
        (
            IdleState {
                lock_fired: self.lock_fired || lock,
                screensaver_fired: self.screensaver_fired || saver,
                screen_off: self.screen_off || off,
            },
            IdleActions { reset_clock: false, lock, start_screensaver: saver, screen_off: off },
        )
    }

    /// Real input: the next idle stretch may lock and start the screensaver
    /// again. True when the displays were off and must be woken.
    pub fn input(&mut self) -> (wake: bool)
        ensures
            wake == old(self).screen_off,
            !final(self).lock_fired && !final(self).screensaver_fired && !final(self).screen_off,
    {
        let wake = self.screen_off;
        self.lock_fired = false;
        self.screensaver_fired = false;
        self.screen_off = false;
        wake
    }
}

/// A tick never locks a session that is already locked, and never starts
/// the screensaver on a locked session. Each step fires exactly when its
/// threshold is set and reached and its conditions hold (the lock: not yet
/// fired in this idle stretch, session unlocked; the screensaver: not yet
/// fired, none running, session unlocked, displays on; screen-off: displays
/// on), and is remembered as fired. While an inhibitor is held a tick only
/// restarts the clock.
pub proof fn law_idle_respects_lock(s: IdleState, cfg: IdleConfig, now: IdleInputs)
    ensures
        now.locked ==> !s.tick_spec(cfg, now).1.lock && !s.tick_spec(cfg, now).1.start_screensaver,
        s.tick_spec(cfg, now).1.lock ==> cfg.lock_secs > 0 && now.idle_secs >= cfg.lock_secs
            && !s.lock_fired && !now.locked && !now.inhibited,
        s.tick_spec(cfg, now).1.start_screensaver ==> cfg.screensaver_secs > 0 && now.idle_secs
            >= cfg.screensaver_secs && !s.screensaver_fired && !now.screensaver_running
            && !s.screen_off && !now.inhibited,
        s.tick_spec(cfg, now).1.screen_off ==> cfg.screen_off_secs > 0 && now.idle_secs
            >= cfg.screen_off_secs && !s.screen_off && !now.inhibited,
        now.inhibited ==> s.tick_spec(cfg, now).0 == s && s.tick_spec(cfg, now).1.reset_clock
            && !s.tick_spec(cfg, now).1.lock && !s.tick_spec(cfg, now).1.start_screensaver
            && !s.tick_spec(cfg, now).1.screen_off,
        !now.inhibited && !now.locked && !s.lock_fired && cfg.lock_secs > 0 && now.idle_secs
            >= cfg.lock_secs ==> s.tick_spec(cfg, now).1.lock,
        !now.inhibited && !now.locked && !s.screensaver_fired && !now.screensaver_running
            && !s.screen_off && cfg.screensaver_secs > 0 && now.idle_secs >= cfg.screensaver_secs
            ==> s.tick_spec(cfg, now).1.start_screensaver,
        !now.inhibited && !s.screen_off && cfg.screen_off_secs > 0 && now.idle_secs
            >= cfg.screen_off_secs ==> s.tick_spec(cfg, now).1.screen_off,
        s.tick_spec(cfg, now).0.lock_fired == (s.lock_fired || s.tick_spec(cfg, now).1.lock),
        s.tick_spec(cfg, now).0.screensaver_fired == (s.screensaver_fired || s.tick_spec(
            cfg,
            now,
        ).1.start_screensaver),
        s.tick_spec(cfg, now).0.screen_off == (s.screen_off || s.tick_spec(cfg, now).1.screen_off),
{
}

/// Within one idle stretch each step fires at most once: a tick that
/// follows one which locked, started the screensaver or powered the
/// displays off, with no input between them, does not do that again.
pub proof fn law_idle_fires_once(s0: IdleState, cfg: IdleConfig, a: IdleInputs, b: IdleInputs)
    ensures
        ({
            let (s1, act1) = s0.tick_spec(cfg, a);
            let act2 = s1.tick_spec(cfg, b).1;
            &&& act1.lock ==> !act2.lock
            &&& act1.start_screensaver ==> !act2.start_screensaver
            &&& act1.screen_off ==> !act2.screen_off
        }),
{
}

} // verus!
