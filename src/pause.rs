//! Pause accounting: two pause sources (a manual toggle and loss of focus of
//! the watched window) share one pause-start time. Times are milliseconds
//! elapsed since the run started, read from a monotonic clock.
use vstd::prelude::*;

verus! {

/// The mathematical value of a [`PauseManager`].
pub ghost struct PauseView {
    pub manual: bool,
    pub window: bool,
    /// When the run (or its latest restart) began.
    pub run_start: nat,
    /// Sum of the completed pauses.
    pub total: nat,
    /// When the pause being accounted began.
    pub start: Option<nat>,
    /// The latest time handed to the manager.
    pub clock: nat,
}

pub open spec fn view_ok(v: PauseView) -> bool {
    &&& (v.start is Some <==> (v.manual || v.window))
    &&& v.run_start + v.total <= v.clock
    &&& v.clock <= u64::MAX
    &&& v.start matches Some(ps) ==> v.run_start + v.total <= ps <= v.clock
}

/// A fresh run starting at `now`: not paused, nothing accounted.
pub open spec fn restart_spec(now: nat) -> PauseView {
    PauseView { manual: false, window: false, run_start: now, total: 0, start: None, clock: now }
}

/// Begins accounting a pause at `now`, unless one is already accounted.
pub open spec fn start_spec(v: PauseView, now: nat) -> PauseView {
    PauseView {
        start: if v.start is Some { v.start } else { Some(now) },
        clock: now,
        ..v
    }
}

/// Ends the accounted pause at `now`, adding its length to the total.
pub open spec fn end_spec(v: PauseView, now: nat) -> PauseView {
    match v.start {
        Some(ps) => PauseView { total: v.total + (now - ps) as nat, start: None, clock: now, ..v },
        None => PauseView { clock: now, ..v },
    }
}

/// Flips the manual pause. Accounting starts when it is switched on (unless
/// a pause is already accounted) and ends when it is switched off while the
/// window does not hold the pause.
pub open spec fn toggle_manual_spec(v: PauseView, now: nat) -> PauseView {
    let w = PauseView { manual: !v.manual, ..v };
    if w.manual {
        start_spec(w, now)
    } else if !w.window {
        end_spec(w, now)
    } else {
        PauseView { clock: now, ..w }
    }
}

/// Sets the window pause. A change on starts accounting (unless a pause is
/// already accounted); a change off ends it while the manual pause does not
/// hold; no change does nothing but advance the clock.
pub open spec fn window_spec(v: PauseView, paused: bool, now: nat) -> PauseView {
    if paused && !v.window {
        start_spec(PauseView { window: true, ..v }, now)
    } else if !paused && v.window {
        if v.manual {
            PauseView { window: false, clock: now, ..v }
        } else {
            end_spec(PauseView { window: false, ..v }, now)
        }
    } else {
        PauseView { clock: now, ..v }
    }
}

/// Paused time up to `now`: the completed pauses and the pause under way.
pub open spec fn paused_so_far(v: PauseView, now: nat) -> int {
    match v.start {
        Some(ps) => v.total + (now - ps),
        None => v.total as int,
    }
}

/// Time not spent paused: time elapsed since the run began, less the
/// completed pauses and the pause under way.
pub open spec fn active_spec(v: PauseView, now: nat) -> int {
    match v.start {
        Some(ps) => (now - v.run_start) - v.total - (now - ps),
        None => (now - v.run_start) - v.total,
    }
}

/// Tracks whether monitoring is paused and for how long it has been.
pub struct PauseManager {
    manual_pause: bool,
    window_pause: bool,
    run_start: u64,
    total_paused_duration: u64,
    pause_start: Option<u64>,
    clock: u64,
}

impl View for PauseManager {
    type V = PauseView;

    closed spec fn view(&self) -> PauseView {
        PauseView {
            manual: self.manual_pause,
            window: self.window_pause,
            run_start: self.run_start as nat,
            total: self.total_paused_duration as nat,
            start: match self.pause_start {
                Some(ps) => Some(ps as nat),
                None => None,
            },
            clock: self.clock as nat,
        }
    }
}

impl PauseManager {
    #[verifier::type_invariant]
    closed spec fn inv(&self) -> bool {
        view_ok(self@)
    }

    /// Not paused, nothing accounted, with the run starting at time zero.
    pub fn new() -> (r: Self)
        ensures
            r@ == restart_spec(0),
            view_ok(r@),
    {
        PauseManager {
            manual_pause: false,
            window_pause: false,
            run_start: 0,
            total_paused_duration: 0,
            pause_start: None,
            clock: 0,
        }
    }

    /// Either source holds the pause.
    pub fn is_paused(&self) -> (r: bool)
        ensures
            r == (self@.manual || self@.window),
    {
        self.manual_pause || self.window_pause
    }

    pub fn is_manually_paused(&self) -> (r: bool)
        ensures
            r == self@.manual,
    {
        self.manual_pause
    }

    pub fn is_window_paused(&self) -> (r: bool)
        ensures
            r == self@.window,
    {
        self.window_pause
    }

    /// The latest time handed to the manager; later calls take no earlier
    /// time. Also shows the manager's invariant.
    pub fn clock(&self) -> (r: u64)
        ensures
            r == self@.clock,
            view_ok(self@),
    {
        proof {
            use_type_invariant(self);
        }
        self.clock
    }

    /// The sum of the completed pauses.
    pub fn total_paused(&self) -> (r: u64)
        ensures
            r == self@.total,
    {
        self.total_paused_duration
    }

    /// Starts the run afresh at `now`: not paused, nothing accounted.
    pub fn restart(&mut self, now: u64)
        requires
            now >= old(self)@.clock,
        ensures
            final(self)@ == restart_spec(now as nat),
            view_ok(final(self)@),
    {
        *self = PauseManager {
            manual_pause: false,
            window_pause: false,
            run_start: now,
            total_paused_duration: 0,
            pause_start: None,
            clock: now,
        };
    }

    /// The pause start once a pause is accounted from `now` on.
    fn start_pause(&self, now: u64) -> (r: Option<u64>)
        requires
            now >= self@.clock,
        ensures
            r == (if self.pause_start is Some { self.pause_start } else { Some(now) }),
    {
        if self.pause_start.is_none() {
            Some(now)
        } else {
            self.pause_start
        }
    }

    /// The total once the accounted pause, if any, ends at `now`.
    fn end_pause(&self, now: u64) -> (r: u64)
        requires
            now >= self@.clock,
        ensures
            r == match self@.start {
                Some(ps) => self@.total + (now - ps),
                None => self@.total as int,
            },
    {
        proof {
            use_type_invariant(self);
        }
        match self.pause_start {
            Some(ps) => self.total_paused_duration + (now - ps),
            None => self.total_paused_duration,
        }
    }

    pub fn toggle_manual_pause(&mut self, now: u64)
        requires
            now >= old(self)@.clock,
        ensures
            final(self)@ == toggle_manual_spec(old(self)@, now as nat),
            view_ok(final(self)@),
    {
        proof {
            use_type_invariant(&*self);
        }
        let manual = !self.manual_pause;
        let (start, total) = if manual {
            (self.start_pause(now), self.total_paused_duration)
        } else if !self.window_pause {
            (None, self.end_pause(now))
        } else {
            (self.pause_start, self.total_paused_duration)
        };
        *self = PauseManager {
            manual_pause: manual,
            window_pause: self.window_pause,
            run_start: self.run_start,
            total_paused_duration: total,
            pause_start: start,
            clock: now,
        };
    }

    pub fn set_window_pause(&mut self, paused: bool, now: u64)
        requires
            now >= old(self)@.clock,
        ensures
            final(self)@ == window_spec(old(self)@, paused, now as nat),
            view_ok(final(self)@),
    {
        proof {
            use_type_invariant(&*self);
        }
        let (start, total) = if paused && !self.window_pause {
            (self.start_pause(now), self.total_paused_duration)
        } else if !paused && self.window_pause && !self.manual_pause {
            (None, self.end_pause(now))
        } else {
            (self.pause_start, self.total_paused_duration)
        };
        *self = PauseManager {
            manual_pause: self.manual_pause,
            window_pause: paused,
            run_start: self.run_start,
            total_paused_duration: total,
            pause_start: start,
            clock: now,
        };
    }

    /// Time spent not paused up to `now`.
    pub fn active_duration(&self, now: u64) -> (r: u64)
        requires
            now >= self@.clock,
        ensures
            r == active_spec(self@, now as nat),
    {
        proof {
            use_type_invariant(self);
        }
        match self.pause_start {
            Some(ps) => ps - self.run_start - self.total_paused_duration,
            None => now - self.run_start - self.total_paused_duration,
        }
    }
}

/// A manual pause switched on at `t0` and off `d` later, with no pause
/// under way before, adds exactly `d` to the total.
pub proof fn lemma_manual_pause_adds_its_length(v: PauseView, t0: nat, d: nat)
    requires
        view_ok(v),
        v.start is None,
        !v.manual,
        v.clock <= t0,
    ensures
        toggle_manual_spec(toggle_manual_spec(v, t0), t0 + d).total == v.total + d,
        toggle_manual_spec(toggle_manual_spec(v, t0), t0 + d).start is None,
{
}

/// With both sources switched on (at `t0`, then `t1`) and off (at `t2`,
/// then `t3`), in either order of sources, the paused time is counted once
/// and whole: the total grows by `t3 - t0`, from the first pause to the
/// last resume.
pub proof fn lemma_overlapping_pauses_counted_once(
    v: PauseView,
    manual_first: bool,
    manual_released_first: bool,
    t0: nat,
    t1: nat,
    t2: nat,
    t3: nat,
)
    requires
        view_ok(v),
        v.start is None,
        !v.manual,
        !v.window,
        v.clock <= t0 <= t1 <= t2 <= t3,
    ensures
        ({
            let a = if manual_first {
                toggle_manual_spec(v, t0)
            } else {
                window_spec(v, true, t0)
            };
            let b = if manual_first {
                window_spec(a, true, t1)
            } else {
                toggle_manual_spec(a, t1)
            };
            let c = if manual_released_first {
                toggle_manual_spec(b, t2)
            } else {
                window_spec(b, false, t2)
            };
            let d = if manual_released_first {
                window_spec(c, false, t3)
            } else {
                toggle_manual_spec(c, t3)
            };
            &&& d.total == v.total + (t3 - t0)
            &&& d.start is None
            &&& !d.manual && !d.window
        }),
{
}

/// Switching either source at `now` keeps the invariant, changes the
/// paused time up to `now` by nothing, and leaves the start of accounting
/// set exactly while some source holds the pause. So paused time grows
/// with the clock exactly while the manager is paused, whatever the
/// overlap of the two sources, and active time is elapsed time less it.
pub proof fn lemma_switch_keeps_paused_time(v: PauseView, manual_toggle: bool, paused: bool, now: nat)
    requires
        view_ok(v),
        v.clock <= now <= u64::MAX,
    ensures
        ({
            let w = if manual_toggle {
                toggle_manual_spec(v, now)
            } else {
                window_spec(v, paused, now)
            };
            &&& view_ok(w)
            &&& paused_so_far(w, now) == paused_so_far(v, now)
            &&& active_spec(w, now) == (now - w.run_start) - paused_so_far(w, now)
        }),
{
}

} // verus!
